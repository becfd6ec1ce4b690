//! Decisions of the window around a request: its title, and when a
//! file-browser filter that is being typed takes effect.
use vstd::prelude::*;

use crate::text::{chars_of, string_of};

verus! {

/// The window title: the app's name, and the open file's name in brackets
/// when there is one.
pub open spec fn title_of(file_name: Option<Seq<char>>) -> Seq<char> {
    match file_name {
        Some(n) => seq!['C', 'u', 'r', 'l', 'U', ' ', '\u{2014}', ' ', '['] + n + seq![']'],
        None => seq!['C', 'u', 'r', 'l', 'U'],
    }
}

/// The window title (see `title_of`).
pub fn window_title(file_name: Option<&str>) -> (r: String)
    ensures
        r@ == title_of(
            match file_name {
                Some(n) => Some(n@),
                None => None,
            },
        ),
{
    match file_name {
        Some(n) => {
            let mut v = vec!['C', 'u', 'r', 'l', 'U', ' ', '\u{2014}', ' ', '['];
            let mut nv = chars_of(n);
            v.append(&mut nv);
            v.push(']');
            string_of(v.as_slice())
        },
        None => {
            let v = vec!['C', 'u', 'r', 'l', 'U'];
            string_of(v.as_slice())
        },
    }
}

/// How long a filter being typed waits before it takes effect.
pub const FILTER_DELAY_MS: u64 = 300;

/// When a filter last changed `elapsed_nanos` ago: none once the delay has
/// passed (the filter takes effect now), else the whole milliseconds left
/// to wait (the delay less the whole milliseconds elapsed).
pub open spec fn filter_wait_of(elapsed_nanos: u128) -> Option<u64> {
    if elapsed_nanos >= 300_000_000 {
        None
    } else {
        Some((300 - elapsed_nanos / 1_000_000) as u64)
    }
}

/// When a filter being typed takes effect (see `filter_wait_of`).
pub fn filter_wait(elapsed_nanos: u128) -> (r: Option<u64>)
    ensures
        r == filter_wait_of(elapsed_nanos),
{
    if elapsed_nanos >= 300_000_000 {
        None
    } else {
        let ms = (elapsed_nanos / 1_000_000) as u64;
        Some(FILTER_DELAY_MS - ms)
    }
}

} // verus!
