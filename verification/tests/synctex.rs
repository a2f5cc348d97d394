use faster_beamer::gzip::compressed;
use faster_beamer::path_parts::PathStyle;
use faster_beamer::paths::FilePath;
use faster_beamer::sync_map::{map_temp_line_from_segments, FrameSyncTexMap, SyncTexLineSegment};
use faster_beamer::synctex::{
    append_merged_synctex_header, build_merged_frame_synctex, decoded_contents,
    parse_synctex_document, parse_synctex_input_line, parse_synctex_record_count,
    read_synctex_contents, remap_synctex_contents, remap_synctex_global_tag,
    remap_synctex_link_line, rewrite_synctex, rewrite_synctex_content_lines, synctex_input_matches,
    synctex_page_close, synctex_page_open, synctex_path, FrameSidecar, SyncTexFailure,
};
use flate2::read::GzDecoder;
use std::collections::HashMap;
use std::io::Read;

fn segment(temp_start_line: u128, line_count: u128, source_start_line: u128) -> SyncTexLineSegment {
    SyncTexLineSegment {
        temp_start_line,
        line_count,
        source_start_line,
    }
}

fn map(source: &str, name: &str, segments: Vec<SyncTexLineSegment>) -> FrameSyncTexMap {
    FrameSyncTexMap {
        source_file: FilePath::parse(source),
        temp_file_name: name.to_string(),
        segments,
    }
}

/// The sidecar of a frame whose SyncTeX file was read like this.
fn sidecar(map: FrameSyncTexMap, file: &str, read: Result<Vec<u8>, String>) -> FrameSidecar {
    FrameSidecar {
        content: read_synctex_contents(&FilePath::parse(file), &read),
        sync_map: map,
    }
}

fn unpacked(bytes: &[u8]) -> String {
    let mut text = String::new();
    GzDecoder::new(bytes).read_to_string(&mut text).unwrap();
    text
}

#[test]
fn merged_frame_synctex_combines_pages_and_remaps_input_tags() {
    let document_a = map("/deck/slides.tex", "frame-a.tex", vec![segment(10, 3, 100)]);
    let document_b = map("/deck/slides.tex", "frame-b.tex", vec![segment(5, 2, 200)]);

    let fixture_a = compressed(
        "SyncTeX Version:1\n\
Input:1:frame-a.tex\n\
Input:2:common.sty\n\
Output:frame-a.pdf\n\
Magnification:1000\n\
Unit:1\n\
X Offset:0\n\
Y Offset:0\n\
Content:\n\
!944\n\
{1\n\
[1,10:0,0:0,0,0\n\
x2,3:0,0\n\
!97\n\
}1\n\
Postamble:\n\
Count:10\n\
!123\n\
Post scriptum:\n",
    )
    .unwrap();
    let fixture_b = compressed(
        "SyncTeX Version:1\n\
Input:7:frame-b.tex\n\
Input:8:common.sty\n\
Output:frame-b.pdf\n\
Magnification:1000\n\
Unit:1\n\
X Offset:0\n\
Y Offset:0\n\
Content:\n\
!120\n\
{1\n\
(7,5:0,0:0,0,0\n\
x8,4:0,0\n\
g9,4:0,0\n\
r9,4:0,0:0,0,0\n\
Input:9:late.sty\n\
}1\n\
!240\n\
{2\n\
[7,6:0,0:0,0,0\n\
}2\n\
Postamble:\n\
Count:20\n\
!456\n\
Post scriptum:\n",
    )
    .unwrap();

    let (merged, page_count) = build_merged_frame_synctex(
        &[
            sidecar(document_a, "/cache/frame-a.synctex.gz", Ok(fixture_a)),
            sidecar(document_b, "/cache/frame-b.synctex.gz", Ok(fixture_b)),
        ],
        &FilePath::parse("merged.pdf"),
    )
    .unwrap();
    let source_path = synctex_path(&FilePath::parse("/deck/slides.tex"));

    assert_eq!(page_count, 3);
    assert_eq!(
        merged.matches(&format!("Input:1:{}", source_path)).count(),
        1
    );
    assert_eq!(merged.matches("Input:2:common.sty").count(), 1);
    assert_eq!(merged.matches("Input:3:late.sty").count(), 1);
    assert!(merged.contains("Output:merged.pdf"));
    assert!(merged.contains("\n{1\n"));
    assert!(merged.contains("\n{2\n"));
    assert!(merged.contains("\n{3\n"));
    assert!(merged.contains("\n}1\n"));
    assert!(merged.contains("\n}2\n"));
    assert!(merged.contains("\n}3\n"));
    assert!(merged.contains("[1,100:0,0:0,0,0"));
    assert!(merged.contains("(1,200:0,0:0,0,0"));
    assert!(merged.contains("[1,201:0,0:0,0,0"));
    assert!(merged.contains("x2,3:0,0"));
    assert!(merged.contains("x2,4:0,0"));
    assert!(merged.contains("g3,4:0,0"));
    assert!(merged.contains("r3,4:0,0:0,0,0"));
    assert!(merged.contains("Count:30"));
    assert!(!merged.contains("frame-a.tex"));
    assert!(!merged.contains("frame-b.tex"));
}

#[test]
fn merged_frame_synctex_reports_missing_sidecar() {
    let document = map("/deck/slides.tex", "missing.tex", Vec::new());

    let error = build_merged_frame_synctex(
        &[sidecar(
            document,
            "/cache/missing.synctex.gz",
            Err("no such file".to_string()),
        )],
        &FilePath::parse("merged.pdf"),
    )
    .unwrap_err();

    assert!(error.contains("failed to read"));
    assert_eq!(error, "failed to read /cache/missing.synctex.gz: no such file");
}

#[test]
fn a_merged_file_is_written_in_full() {
    let content = "SyncTeX Version:1\nOutput:a.pdf\nContent:\n{1\nInput:4:a.tex\nk4,1:2\n}1\nPostamble:\nCount:x\nCount:5\n";
    let read = sidecar(
        map("/s.tex", "a.tex", vec![segment(1, 1, 9)]),
        "a",
        Ok(compressed(content).unwrap()),
    );
    let (merged, pages) = build_merged_frame_synctex(&[read], &FilePath::parse("o.pdf")).unwrap();
    assert_eq!(pages, 1);
    assert_eq!(
        merged,
        "SyncTeX Version:1\nInput:1:/s.tex\nOutput:o.pdf\nContent:\n{1\nk1,9:2\n}1\nPostamble:\nCount:5\n!0\nPost scriptum:\n"
    );
    assert_eq!(
        build_merged_frame_synctex(&[], &FilePath::parse("o.pdf")).unwrap_err(),
        "there are no frame SyncTeX files"
    );
}

#[test]
fn files_that_are_no_gzip_are_reported() {
    let file = FilePath::parse("/c/a.synctex.gz");
    let error = read_synctex_contents(&file, &Ok(b"plain text".to_vec())).unwrap_err();
    assert!(error.starts_with("failed to decode /c/a.synctex.gz: "));
    assert_eq!(
        read_synctex_contents(&file, &Ok(compressed("\u{20ac} text\n").unwrap())).unwrap(),
        "\u{20ac} text\n"
    );
    assert_eq!(
        decoded_contents(&file, Err("bad".to_string())).unwrap_err(),
        "failed to decode /c/a.synctex.gz: bad"
    );
    assert_eq!(decoded_contents(&file, Ok("x".to_string())).unwrap(), "x");
}

#[test]
fn packed_text_can_be_unpacked() {
    let text = "Content:\n\u{fc}\n".repeat(500);
    let bytes = compressed(&text).unwrap();
    assert_ne!(bytes, text.as_bytes());
    assert_eq!(unpacked(&bytes), text);
}

#[test]
fn a_synctex_file_is_rewritten_in_place() {
    let map = map("/deck/s.tex", "t.tex", vec![segment(1, 5, 11)]);
    let bytes = compressed("Input:3:./t.tex\n[3,2:0\nx4,2:0\n").unwrap();
    let rewritten = rewrite_synctex(&bytes, &map).unwrap();
    assert_eq!(unpacked(&rewritten), "Input:3:/deck/s.tex\n[3,12:0\nx4,2:0\n");
    assert!(matches!(
        rewrite_synctex(b"nothing", &map),
        Err(SyncTexFailure::Decode(_))
    ));
}

#[test]
fn lines_of_other_inputs_are_left_alone() {
    let map = map("/deck/s.tex", "t.tex", vec![segment(1, 5, 11)]);
    assert_eq!(
        remap_synctex_contents("[3,2:0\nInput:3:t.tex\nfoo\n[3,9:0\n[3,1,7,8:0", &map),
        "[3,2:0\nInput:3:/deck/s.tex\nfoo\n[3,9:0\n[3,11,7:0"
    );
    assert_eq!(remap_synctex_contents("", &map), "");
    assert_eq!(remap_synctex_link_line("x3,5:q:r", 3, &map), Some("x3,15:q:r".to_string()));
    assert_eq!(remap_synctex_link_line("x4,5:q", 3, &map), None);
    assert_eq!(remap_synctex_link_line("y3,5:q", 3, &map), None);
    assert_eq!(remap_synctex_link_line("x3,5", 3, &map), None);
    assert_eq!(remap_synctex_link_line("x3:5", 3, &map), None);
    assert_eq!(remap_synctex_link_line("", 3, &map), None);
}

#[test]
fn the_last_segment_that_covers_a_line_counts() {
    let segments = [segment(1, 10, 100), segment(4, 2, 500)];
    assert_eq!(map_temp_line_from_segments(&segments, 3), 102);
    assert_eq!(map_temp_line_from_segments(&segments, 5), 501);
    assert_eq!(map_temp_line_from_segments(&segments, 6), 105);
    assert_eq!(map_temp_line_from_segments(&segments, 11), 11);
    assert_eq!(map("a", "b", segments.to_vec()).map_temp_line(4), 500);
}

#[test]
fn input_lines_are_taken_apart() {
    assert_eq!(
        parse_synctex_input_line("Input:12:C:/a.tex"),
        Some((12, "C:/a.tex".to_string()))
    );
    assert_eq!(parse_synctex_input_line("Input:x:a"), None);
    assert_eq!(parse_synctex_input_line("Input:12"), None);
    assert_eq!(parse_synctex_input_line("Output:1:a"), None);
    assert!(synctex_input_matches("t.tex", "t.tex", PathStyle::Unix));
    assert!(synctex_input_matches("/a/./t.tex", "t.tex", PathStyle::Unix));
    assert!(!synctex_input_matches("/a/s.tex", "t.tex", PathStyle::Unix));
    assert_eq!(synctex_page_open("{12"), Some(12));
    assert_eq!(synctex_page_open("}12"), None);
    assert_eq!(synctex_page_close("}12"), Some(12));
    assert_eq!(synctex_page_close("}x"), None);
}

#[test]
fn documents_need_all_their_sections() {
    let error = |content: &str| parse_synctex_document(content).unwrap_err();
    assert_eq!(error("Postamble:\n"), "SyncTeX file has no Content section");
    assert_eq!(error("Content:\n"), "SyncTeX file has no Postamble section");
    assert_eq!(
        error("Postamble:\nContent:\n"),
        "SyncTeX Postamble appears before Content"
    );
    assert_eq!(
        error("Content:\nPostamble:\n"),
        "SyncTeX file has no Input lines"
    );
    let parsed =
        parse_synctex_document("H\nInput:1:a\nContent:\nx\nInput:2:b\nPostamble:\nCount:4\n")
            .unwrap();
    assert_eq!(parsed.header_lines, vec!["H", "Input:1:a"]);
    assert_eq!(parsed.content_lines, vec!["x", "Input:2:b"]);
    assert_eq!(
        parsed.input_lines,
        vec![(1, "a".to_string()), (2, "b".to_string())]
    );
    assert_eq!(parsed.record_count, 4);
    let lines = ["Count:3".to_string(), "Postamble:".to_string()];
    assert_eq!(parse_synctex_record_count(&lines, 0), 0);
}

#[test]
fn tags_are_replaced_by_those_of_the_merged_file() {
    let tags: HashMap<u32, u32> = [(4, 1), (5, 2)].into_iter().collect();
    assert_eq!(
        remap_synctex_global_tag("h4,7,8:1:2", &tags).unwrap(),
        "h1,7,8:1:2"
    );
    assert_eq!(remap_synctex_global_tag("!4,7:1", &tags).unwrap(), "!4,7:1");
    assert_eq!(remap_synctex_global_tag("h4,7", &tags).unwrap(), "h4,7");
    assert_eq!(remap_synctex_global_tag("hx,7:", &tags).unwrap(), "hx,7:");
    assert_eq!(
        remap_synctex_global_tag("h6,7:1", &tags).unwrap_err(),
        "SyncTeX record references unknown input tag 6"
    );

    let lines: Vec<String> = ["{0", "{2", "v5:1", "Input:9:x", "}2", "}0"]
        .iter()
        .map(|line| line.to_string())
        .collect();
    assert_eq!(
        rewrite_synctex_content_lines(&lines, 10, &tags).unwrap(),
        (
            vec!["{0", "{12", "v2:1", "}12", "}0"]
                .into_iter()
                .map(String::from)
                .collect::<Vec<String>>(),
            2
        )
    );
    assert_eq!(
        rewrite_synctex_content_lines(&lines[..1], 10, &tags).unwrap_err(),
        "SyncTeX content has no page sheet records"
    );
}

#[test]
fn merged_headers_list_all_inputs_once() {
    let inputs = [(1, "a".to_string()), (2, "b".to_string())];
    let output = FilePath::parse("o.pdf");
    let header = |lines: &[&str]| {
        let lines: Vec<String> = lines.iter().map(|line| line.to_string()).collect();
        let mut merged = vec!["start".to_string()];
        append_merged_synctex_header(&mut merged, &lines, &inputs, &output);
        merged.join("|")
    };
    assert_eq!(
        header(&["V", "Input:7:x", "Input:8:y", "Output:z", "U"]),
        "start|V|Input:1:a|Input:2:b|Output:o.pdf|U"
    );
    assert_eq!(
        header(&["Output:z", "Input:7:x"]),
        "start|Input:1:a|Input:2:b|Output:o.pdf"
    );
    assert_eq!(header(&["V"]), "start|V|Input:1:a|Input:2:b|Output:o.pdf");
}
