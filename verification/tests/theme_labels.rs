use curlu::settings::{Accent, Settings, Theme};
use curlu::theme::{human_bytes, palette, rgb, rgba, status_chip_colors, status_color, status_label};

#[test]
fn status_labels() {
    assert_eq!(status_label(200), "200 OK");
    assert_eq!(status_label(201), "201 Created");
    assert_eq!(status_label(204), "204 No Content");
    assert_eq!(status_label(301), "301 Moved");
    assert_eq!(status_label(302), "302 Found");
    assert_eq!(status_label(304), "304 Not Modified");
    assert_eq!(status_label(400), "400 Bad Request");
    assert_eq!(status_label(401), "401 Unauthorized");
    assert_eq!(status_label(403), "403 Forbidden");
    assert_eq!(status_label(404), "404 Not Found");
    assert_eq!(status_label(405), "405 Method Not Allowed");
    assert_eq!(status_label(500), "500 Server Error");
    assert_eq!(status_label(502), "502 Bad Gateway");
    assert_eq!(status_label(503), "503 Unavailable");
    assert_eq!(status_label(0), "0");
    assert_eq!(status_label(418), "418");
    assert_eq!(status_label(65535), "65535");
}

#[test]
fn human_bytes_small_counts() {
    assert_eq!(human_bytes(0), "0 B");
    assert_eq!(human_bytes(1023), "1023 B");
    assert_eq!(human_bytes(1024), "1.0 KB");
    assert_eq!(human_bytes(1280), "1.2 KB");
    assert_eq!(human_bytes(1536), "1.5 KB");
    assert_eq!(human_bytes(1024 * 1024 - 1), "1024.0 KB");
    assert_eq!(human_bytes(1024 * 1024), "1.0 MB");
    assert_eq!(human_bytes(5 * 1024 * 1024 + 256 * 1024), "5.2 MB");
}

#[test]
fn human_bytes_matches_float_formatting_for_kib() {
    for n in 1024usize..(1024 * 1024) {
        assert_eq!(human_bytes(n), format!("{:.1} KB", n as f64 / 1024.0), "n = {n}");
    }
}

#[test]
fn human_bytes_matches_float_formatting_for_mib() {
    let mut n: usize = 1024 * 1024;
    while n < 1usize << 40 {
        assert_eq!(human_bytes(n), format!("{:.1} MB", n as f64 / (1024.0 * 1024.0)), "n = {n}");
        n += 104_857 + n / 3;
    }
    for k in 10usize..20000 {
        let n = k * 104_858;
        assert_eq!(human_bytes(n), format!("{:.1} MB", n as f64 / (1024.0 * 1024.0)), "n = {n}");
    }
    for n in [usize::MAX, usize::MAX - 1, (1usize << 53) + 1, (1usize << 60) + 12345, 3 << 19, 5 << 18] {
        assert_eq!(human_bytes(n), format!("{:.1} MB", n as f64 / (1024.0 * 1024.0)), "n = {n}");
    }
}

#[test]
fn status_colours() {
    let pal = palette(Theme::Dark, Accent::Blue);
    assert_eq!(status_color(200, &pal), pal.ok);
    assert_eq!(status_color(299, &pal), pal.ok);
    assert_eq!(status_color(301, &pal), rgb(224, 175, 104));
    assert_eq!(status_color(404, &pal), rgb(229, 86, 74));
    assert_eq!(status_color(599, &pal), rgb(229, 86, 74));
    assert_eq!(status_color(0, &pal), pal.dim);
    assert_eq!(status_color(600, &pal), pal.dim);
    assert_eq!(status_chip_colors(201, &pal), (pal.ok, pal.ok_soft));
    assert_eq!(status_chip_colors(500, &pal), (rgb(229, 86, 74), rgba(229, 86, 74, 43)));
    assert_eq!(status_chip_colors(0, &pal), (pal.dim, rgba(0, 0, 0, 0)));
}

#[test]
fn palettes_share_accents_across_themes() {
    for accent in [Accent::Blue, Accent::Green, Accent::Amber] {
        let d = palette(Theme::Dark, accent);
        let l = palette(Theme::Light, accent);
        assert_eq!(d.accent, l.accent);
        assert_eq!(d.accent_hover, l.accent_hover);
        assert_eq!(d.accent_text, l.accent_text);
        assert_eq!(d.accent_sel, rgba(d.accent.r, d.accent.g, d.accent.b, 38));
        assert_eq!(d.bg0, palette(Theme::Dark, Accent::Blue).bg0);
        assert_eq!(l.syn_key, palette(Theme::Light, Accent::Amber).syn_key);
    }
    assert_eq!(palette(Theme::Dark, Accent::Blue).accent, rgb(59, 130, 246));
    assert_eq!(palette(Theme::Light, Accent::Amber).accent_text, rgb(36, 22, 6));
    assert_eq!(palette(Theme::Light, Accent::Green).bg2, rgb(255, 255, 255));
    assert_eq!(palette(Theme::Dark, Accent::Green).hover, rgba(200, 200, 200, 13));
}

#[test]
fn default_settings() {
    let s = Settings::default();
    assert_eq!(s.default_directory, None);
    assert_eq!(s.theme, Theme::Dark);
    assert_eq!(s.accent, Accent::Blue);
}

#[test]
fn window_chrome_is_the_darkest_background() {
    let light = |c: curlu::theme::Rgba| c.r as u32 + c.g as u32 + c.b as u32;
    for theme in [Theme::Dark, Theme::Light] {
        for accent in [Accent::Blue, Accent::Green, Accent::Amber] {
            let p = palette(theme, accent);
            assert!(light(p.bg0) <= light(p.bg1));
            assert!(light(p.bg0) <= light(p.bg2));
            assert!(light(p.bg0) <= light(p.side));
        }
    }
    assert_eq!(palette(Theme::Dark, Accent::Blue).bg0, rgb(19, 21, 26));
}
