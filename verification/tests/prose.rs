use person2vec::gutenberg::{chunk_passages, decode, mirror_dir};

#[test]
fn mirror_dir_nests_by_digits() {
    assert_eq!(mirror_dir(1342), "1/3/4/1342");
    assert_eq!(mirror_dir(98), "9/98");
    assert_eq!(mirror_dir(7), "0/7");
    assert_eq!(mirror_dir(0), "0/0");
}

#[test]
fn decode_prefers_utf8_then_latin1() {
    assert_eq!(decode(vec![0x63, 0x61, 0x66, 0xc3, 0xa9]), "café");
    assert_eq!(decode(vec![0x63, 0xe9]), "c\u{e9}");
    assert_eq!(decode(Vec::new()), "");
}

fn words(n: usize, w: &str) -> String {
    vec![w; n].join(" ")
}

#[test]
fn chunk_passages_groups_paragraphs() {
    let text = format!(
        "{}\r\n\r\n{}\n\n\n\n{}\n\n{}",
        words(150, "a"),
        words(100, "b"),
        words(140, "c"),
        words(10, "d")
    );
    let ps = chunk_passages(&text);
    assert_eq!(ps.len(), 2);
    assert_eq!(ps[0], format!("{} {}", words(150, "a"), words(100, "b")));
    assert_eq!(ps[1], format!("{} {}", words(140, "c"), words(10, "d")));
}

#[test]
fn chunk_passages_collapses_lines_and_drops_short_tail() {
    let para = (0..200).map(|i| if i % 10 == 9 { "w\n" } else { "w " }).collect::<String>();
    let text = format!("{para}\n\n{}", words(129, "x"));
    let ps = chunk_passages(&text);
    assert_eq!(ps, vec![words(200, "w")]);
}
