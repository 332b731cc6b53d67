use oxide_core::{
    parse_all_blobs, parse_all_blobs_sync, parse_blobs, scan, sorted_candidates, to_texts,
    ChangedContent, ContentSource, Parsing, Strategy, StrategyError, IO,
};
use std::path::PathBuf;

fn extract(text: &str) -> Vec<String> {
    parse_all_blobs(vec![text.as_bytes().to_vec()])
}

fn strings(items: &[&str]) -> Vec<String> {
    items.iter().map(|s| s.to_string()).collect()
}

#[test]
fn unbalanced_bracket_gives_nothing() {
    assert_eq!(extract("bg-[red"), Vec::<String>::new());
}

#[test]
fn balanced_bracket_gives_one_candidate() {
    assert_eq!(extract("bg-[red]"), strings(&["bg-[red]"]));
}

#[test]
fn variant_chain_stays_whole() {
    assert_eq!(
        extract("<div class=\"md:hover:bg-red-500\">"),
        strings(&["md:hover:bg-red-500"])
    );
}

#[test]
fn multibyte_character_never_split() {
    let text = "content-['→'] →flex flexé é";
    assert_eq!(extract(text), strings(&["content-['→']"]));
    let bytes = text.as_bytes();
    for (s, e) in scan(bytes) {
        assert!(bytes[s] < 0x80);
        assert!(e == bytes.len() || bytes[e] < 0x80);
        assert!(std::str::from_utf8(&bytes[s..e]).is_ok());
    }
}

#[test]
fn quoted_bracket_is_data() {
    assert_eq!(extract("content-['a]b']"), strings(&["content-['a]b']"]));
}

#[test]
fn modifiers_extend_candidate() {
    assert_eq!(
        extract("w-1/2 bg-red-500/50 text-[12px]/[20px]"),
        strings(&["bg-red-500/50", "text-[12px]/[20px]", "w-1/2"])
    );
}

#[test]
fn arbitrary_property_and_selector() {
    assert_eq!(
        extract("[color:red] [&>*]:p-4"),
        strings(&["[&>*]:p-4", "[color:red]"])
    );
}

#[test]
fn dangling_colon_is_dropped() {
    assert_eq!(extract("hover: flex"), strings(&["flex"]));
}

#[test]
fn second_bang_ends_candidate() {
    assert_eq!(extract("!flex!"), strings(&["!flex"]));
}

#[test]
fn escape_makes_terminator_literal() {
    assert_eq!(extract("a\\ b"), strings(&["a\\ b"]));
}

#[test]
fn scan_reports_spans_in_order() {
    assert_eq!(scan(b"flex p-4"), vec![(0, 4), (5, 8)]);
    assert_eq!(scan(b""), vec![]);
}

#[test]
fn output_sorted_by_bytes_and_distinct() {
    let out = parse_all_blobs(vec![
        b"zeta B a A b flex".to_vec(),
        b"flex b zeta".to_vec(),
    ]);
    assert_eq!(out, strings(&["A", "B", "a", "b", "flex", "zeta"]));
}

#[test]
fn empty_input_gives_empty_output() {
    assert_eq!(parse_all_blobs(vec![]), Vec::<String>::new());
    assert_eq!(parse_all_blobs_sync(vec![]), Vec::<String>::new());
    assert_eq!(parse_all_blobs(vec![vec![]]), Vec::<String>::new());
}

#[test]
fn rescanning_output_recovers_candidates() {
    let text = "<a class=\"md:hover:bg-red-500 w-1/2 content-['x_y'] [color:red]\">p-4</a>";
    let out = extract(text);
    assert!(!out.is_empty());
    for c in &out {
        assert_eq!(extract(c), vec![c.clone()]);
    }
}

fn heavy_blobs(n: usize) -> Vec<Vec<u8>> {
    (0..n)
        .map(|i| format!("<div class=\"p-{} m-{} flex md:hover:bg-red-{}\">", i % 7, i % 13, i % 5).into_bytes())
        .collect()
}

#[test]
fn parallel_and_sequential_agree() {
    for n in [0usize, 1, 10, 2000] {
        let blobs = heavy_blobs(n);
        let par = parse_all_blobs(blobs.clone());
        let seq = parse_all_blobs_sync(blobs.clone());
        assert_eq!(par, seq);
        assert_eq!(parse_blobs(blobs.clone(), Parsing::Parallel), seq);
        assert_eq!(parse_blobs(blobs, Parsing::Sequential), seq);
    }
}

#[test]
fn large_input_result() {
    let out = parse_all_blobs(heavy_blobs(2000));
    assert_eq!(out.len(), 1 + 7 + 13 + 5);
    assert_eq!(out[0], "flex");
    let mut sorted = out.clone();
    sorted.sort();
    sorted.dedup();
    assert_eq!(sorted, out);
}

#[test]
fn sorted_candidates_bytes() {
    let blobs = vec![b"mid zeta".to_vec(), b"alpha mid".to_vec()];
    let bytes = sorted_candidates(&blobs, Parsing::Sequential);
    assert_eq!(bytes, vec![b"alpha".to_vec(), b"mid".to_vec(), b"zeta".to_vec()]);
    assert_eq!(to_texts(&bytes), strings(&["alpha", "mid", "zeta"]));
}

#[test]
fn strategy_bytes_decode() {
    assert_eq!(
        Strategy::from_options(0b0101),
        Ok(Strategy { io: IO::Sequential, parsing: Parsing::Sequential })
    );
    assert_eq!(
        Strategy::from_options(0b1010),
        Ok(Strategy { io: IO::Parallel, parsing: Parsing::Parallel })
    );
    assert_eq!(
        Strategy::from_options(0b1001),
        Ok(Strategy { io: IO::Sequential, parsing: Parsing::Parallel })
    );
    assert_eq!(Strategy::from_options(0), Err(StrategyError::UnknownIO(0)));
    assert_eq!(Strategy::from_options(0b1111), Err(StrategyError::UnknownIO(0b1111)));
    assert_eq!(Strategy::from_options(0b0001), Err(StrategyError::UnknownParsing(0b0001)));
    assert_eq!(Strategy::from_options(0b1110), Err(StrategyError::UnknownParsing(0b1110)));
    assert_eq!(IO::from_bits(0b0110), Some(IO::Parallel));
    assert_eq!(Parsing::from_bits(0b0110), Some(Parsing::Sequential));
}

#[test]
fn strategy_round_trip() {
    for io in [IO::Sequential, IO::Parallel] {
        for parsing in [Parsing::Sequential, Parsing::Parallel] {
            let s = Strategy { io, parsing };
            assert_eq!(Strategy::from_options(s.to_options()), Ok(s));
        }
    }
    assert_eq!(Strategy::parallel().to_options(), 0b1010);
}

#[test]
fn content_sources() {
    let neither = ChangedContent { file: None, content: None, extension: "html".to_string() };
    assert!(matches!(neither.into_source(), ContentSource::Empty));
    let both = ChangedContent {
        file: Some(PathBuf::from("a.html")),
        content: Some("flex".to_string()),
        extension: "html".to_string(),
    };
    assert!(matches!(both.into_source(), ContentSource::Empty));
    let text = ChangedContent { file: None, content: Some("é flex".to_string()), extension: "html".to_string() };
    match text.into_source() {
        ContentSource::Inline(b) => assert_eq!(b, "é flex".as_bytes().to_vec()),
        _ => panic!("expected inline bytes"),
    }
    let file = ChangedContent { file: Some(PathBuf::from("a.html")), content: None, extension: "html".to_string() };
    match file.into_source() {
        ContentSource::File(p) => assert_eq!(p, PathBuf::from("a.html")),
        _ => panic!("expected a file"),
    }
}
