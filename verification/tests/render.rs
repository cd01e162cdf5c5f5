use hls_reorder::error::ReorderError;
use hls_reorder::render::{present, render, render_parsed, serialize, Output, RenderError};
use m3u8_rs::playlist::MasterPlaylist;

const MANIFEST: &str = "#EXTM3U\n\
#EXT-X-VERSION:4\n\
#EXT-X-STREAM-INF:BANDWIDTH=500000,CODECS=\"avc1.4d401e,mp4a.40.2\",AUDIO=\"aac\"\n\
aac/low.m3u8\n\
#EXT-X-STREAM-INF:BANDWIDTH=900000,CODECS=\"avc1.4d401f,mp4a.40.2\",AUDIO=\"aac\"\n\
aac/high.m3u8\n\
#EXT-X-STREAM-INF:BANDWIDTH=700000,CODECS=\"avc1.4d401f,ac-3\",AUDIO=\"ac3\"\n\
ac3/mid.m3u8\n\
#EXT-X-I-FRAME-STREAM-INF:BANDWIDTH=100000,URI=\"iframe.m3u8\"\n";

const FINAL_ORDER: [usize; 4] = [1, 0, 2, 3];

fn parsed(body: &str) -> MasterPlaylist {
    match m3u8_rs::parse_master_playlist(body.as_bytes()) {
        Ok((_, playlist)) => playlist,
        Err(e) => panic!("{:?}", e),
    }
}

fn rearranged(body: &str, order: &[usize]) -> MasterPlaylist {
    let playlist = parsed(body);
    let variants = order.iter().map(|&i| playlist.variants[i].clone()).collect();
    MasterPlaylist { variants, ..playlist }
}

fn written(playlist: &MasterPlaylist) -> String {
    let mut buffer = Vec::new();
    playlist.write_to(&mut buffer).unwrap();
    String::from_utf8(buffer).unwrap()
}

#[test]
fn sample_manifest_is_read_as_meant() {
    let playlist = parsed(MANIFEST);
    assert_eq!(playlist.variants.len(), 4);
    assert_eq!(playlist.variants[0].audio.as_deref(), Some("aac"));
    assert_eq!(playlist.variants[0].bandwidth, "500000");
    assert_eq!(playlist.variants[1].uri, "aac/high.m3u8");
    assert_eq!(playlist.variants[2].audio.as_deref(), Some("ac3"));
    assert!(playlist.variants[3].is_i_frame);
    assert_eq!(playlist.variants[3].audio, None);
}

#[test]
fn m3u8_mode_gives_the_reordered_manifest() {
    let text = render(MANIFEST, Output::M3U8).unwrap();
    assert_eq!(text, written(&rearranged(MANIFEST, &FINAL_ORDER)));
    assert!(text.starts_with("#EXTM3U\n"));
    let high = text.find("aac/high.m3u8").unwrap();
    let low = text.find("aac/low.m3u8").unwrap();
    let mid = text.find("ac3/mid.m3u8").unwrap();
    let frames = text.find("iframe.m3u8").unwrap();
    assert!(high < low && low < mid && mid < frames);
}

#[test]
fn debug_mode_gives_the_dump_of_the_reordered_playlist() {
    let text = render(MANIFEST, Output::Debug).unwrap();
    assert_eq!(text, format!("{:#?}", rearranged(MANIFEST, &FINAL_ORDER)));
    assert!(text.starts_with("MasterPlaylist {"));
}

#[test]
fn diff_mode_gives_the_line_diff_against_the_text_given() {
    let text = render(MANIFEST, Output::Diff).unwrap();
    let revised = written(&rearranged(MANIFEST, &FINAL_ORDER));
    assert_eq!(text, format!("{}", prettydiff::diff_lines(MANIFEST, &revised)));
    assert_ne!(text, MANIFEST);
    assert_ne!(text, revised);
    assert!(text.contains('\u{1b}'));
}

#[test]
fn diff_of_a_manifest_already_in_order_shows_no_change() {
    let in_order = render(MANIFEST, Output::M3U8).unwrap();
    assert_eq!(render(&in_order, Output::M3U8).unwrap(), in_order);
    let diff = render(&in_order, Output::Diff).unwrap();
    let lines: Vec<&str> = in_order.lines().collect();
    assert_eq!(diff, lines.join("\n"));
    assert!(!diff.contains('\u{1b}'));
}

#[test]
fn manifest_with_ungrouped_variant_shows_nothing() {
    let body = "#EXTM3U\n#EXT-X-STREAM-INF:BANDWIDTH=500000\nplain.m3u8\n";
    for output in [Output::M3U8, Output::Diff, Output::Debug] {
        let r = render(body, output);
        assert!(matches!(r, Err(RenderError::Reorder(ReorderError::MissingAudioGroup))), "{:?}", r);
    }
}

#[test]
fn manifest_with_malformed_bandwidth_shows_nothing() {
    let body = "#EXTM3U\n#EXT-X-STREAM-INF:BANDWIDTH=fast,AUDIO=\"aac\"\na.m3u8\n";
    let r = render(body, Output::M3U8);
    assert!(matches!(r, Err(RenderError::Reorder(ReorderError::MalformedBandwidth))), "{:?}", r);
    let body = "#EXTM3U\n#EXT-X-STREAM-INF:AUDIO=\"aac\"\na.m3u8\n";
    let r = render(body, Output::Debug);
    assert!(matches!(r, Err(RenderError::Reorder(ReorderError::MalformedBandwidth))), "{:?}", r);
}

#[test]
fn manifest_without_variants_is_shown_as_it_is_written() {
    let body = "#EXTM3U\n#EXT-X-VERSION:7\n";
    assert_eq!(render(body, Output::M3U8).unwrap(), written(&parsed(body)));
}

#[test]
fn parser_failure_is_handed_on() {
    let r = render_parsed(Err("Error(Many0)".to_string()), MANIFEST, Output::M3U8);
    match r {
        Err(RenderError::Parse(detail)) => assert_eq!(detail, "Error(Many0)"),
        other => panic!("{:?}", other),
    }
}

#[test]
fn render_parsed_reorders_before_it_shows() {
    let text = render_parsed(Ok(parsed(MANIFEST)), MANIFEST, Output::M3U8).unwrap();
    assert_eq!(text, written(&rearranged(MANIFEST, &FINAL_ORDER)));
}

#[test]
fn present_shows_the_playlist_as_it_stands() {
    let playlist = parsed(MANIFEST);
    let text = written(&playlist);
    assert_eq!(present(&playlist, MANIFEST, Output::M3U8).unwrap(), text);
    assert_eq!(present(&playlist, MANIFEST, Output::Debug).unwrap(), format!("{:#?}", playlist));
    assert_eq!(
        present(&playlist, "#EXTM3U\n", Output::Diff).unwrap(),
        format!("{}", prettydiff::diff_lines("#EXTM3U\n", &text))
    );
}

#[test]
fn serialize_writes_the_manifest_text() {
    let playlist = parsed(MANIFEST);
    let text = serialize(&playlist).unwrap();
    assert_eq!(text, written(&playlist));
    assert!(text.contains("#EXT-X-I-FRAME-STREAM-INF:BANDWIDTH=100000"));
}

#[test]
fn any_text_is_parsed_or_refused_without_a_crash() {
    let long_line = "x".repeat(10_000);
    let samples = [
        "",
        "\n",
        "\r\n\r\n",
        "#",
        "#EXT",
        "#EXTM3U",
        "#EXTM3U\r\n#EXT-X-VERSION:3\r\n",
        "#EXT-X-VERSION:\n",
        "#EXT-X-VERSION:99999999999999999999999\n",
        "#EXT-X-STREAM-INF:\n",
        "#EXT-X-STREAM-INF:BANDWIDTH\n",
        "#EXT-X-STREAM-INF:BANDWIDTH=\n",
        "#EXT-X-STREAM-INF:BANDWIDTH=1,AUDIO=\"\n",
        "#EXT-X-STREAM-INF:BANDWIDTH=1,AUDIO=\"a\"",
        "#EXT-X-I-FRAME-STREAM-INF:URI=\"i\"\n",
        "#EXT-X-MEDIA:TYPE=AUDIO,GROUP-ID=\"a\",NAME=\"x\"\n",
        "#EXT-X-SESSION-KEY:METHOD=NONE\n",
        "#EXT-X-START:TIME-OFFSET=0\n",
        "no tags at all\njust lines\n",
        "\u{feff}#EXTM3U\n",
        "#EXTM3U\n#EXT-X-STREAM-INF:BANDWIDTH=1,AUDIO=\"é\"\nü.m3u8\n",
        long_line.as_str(),
    ];
    for body in samples {
        for output in [Output::M3U8, Output::Diff, Output::Debug] {
            match render(body, output) {
                Ok(_) | Err(RenderError::Parse(_)) | Err(RenderError::Reorder(_)) => {}
                Err(other) => panic!("{:?} on {:?}", other, body),
            }
        }
    }
}

#[test]
fn diff_copes_with_empty_and_equal_texts() {
    let bare = MasterPlaylist::default();
    let text = written(&bare);
    assert_eq!(
        present(&bare, "", Output::Diff).unwrap(),
        format!("{}", prettydiff::diff_lines("", &text))
    );
    let lines: Vec<&str> = text.lines().collect();
    assert_eq!(present(&bare, &text, Output::Diff).unwrap(), lines.join("\n"));
}
