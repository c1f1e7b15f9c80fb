//! Parsing non-UTF-8 data by transcoding it to text first.

use lib::typed::{take_while1, Parser};

#[test]
fn transcode_latin1_then_parse() {
    // "café" in Latin-1: the 'é' is the single byte 0xE9 (not valid UTF-8 alone).
    let latin1: &[u8] = &[b'c', b'a', b'f', 0xE9];
    let utf8: String = latin1.iter().map(|&b| b as char).collect();

    let word = take_while1(|c: char| c.is_alphabetic());
    assert_eq!(word.parse(&utf8).unwrap(), "café");
}
