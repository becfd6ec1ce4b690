# curlu

A small desktop HTTP client: compose a request (method, URL, header lines,
body), send it, and read the response with its headers and body highlighted.
Requests are saved as `curl` command lines and read back from them.

The crate is in two parts.

- `src/` is the library, written in Verus and verified: the curl command
  format (`http`), shell-style tokenizing, JSON path filters (`json`),
  syntax highlighting of JSON and header text (`highlight`), the colour
  palettes, status labels and byte counts (`theme`), the file browser's
  counting and filtering (`browser`), and the window's title and filter
  delay (`session`). `curl_law` proves that a request written as a curl
  command reads back as the same request.
- `app/` is the egui program around it: the window, file dialogs, the
  settings file, and the network client.

`tests/` runs the library on concrete values.
