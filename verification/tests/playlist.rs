use hls_reorder::error::ReorderError;
use hls_reorder::playlist::reorder_playlist;
use m3u8_rs::playlist::{AlternativeMedia, MasterPlaylist, SessionData, VariantStream};

fn regular_stream(uri: &str, audio: &str, bandwidth: &str) -> VariantStream {
    VariantStream {
        uri: uri.to_string(),
        audio: Some(audio.to_string()),
        bandwidth: bandwidth.to_string(),
        ..Default::default()
    }
}

fn iframe_stream(uri: &str, bandwidth: &str) -> VariantStream {
    VariantStream {
        is_i_frame: true,
        uri: uri.to_string(),
        bandwidth: bandwidth.to_string(),
        ..Default::default()
    }
}

fn uris(playlist: &MasterPlaylist) -> Vec<String> {
    playlist.variants.iter().map(|v| v.uri.clone()).collect()
}

#[test]
fn playlist_streams_are_put_in_the_final_order() {
    let playlist = MasterPlaylist {
        variants: vec![
            regular_stream("A", "aac", "500000"),
            regular_stream("B", "aac", "900000"),
            regular_stream("C", "ac3", "700000"),
            iframe_stream("D", "100000"),
        ],
        ..Default::default()
    };
    let sorted = reorder_playlist(playlist).unwrap();
    assert_eq!(uris(&sorted), vec!["B", "A", "C", "D"]);
}

#[test]
fn playlist_keeps_everything_but_the_order() {
    let mut rich = regular_stream("rich", "aac", "100");
    rich.codecs = Some("avc1.4d401e,mp4a.40.2".to_string());
    rich.resolution = Some("1280x720".to_string());
    rich.average_bandwidth = Some("90".to_string());
    rich.alternatives = vec![AlternativeMedia {
        group_id: "aac".to_string(),
        name: "English".to_string(),
        default: true,
        ..Default::default()
    }];
    let playlist = MasterPlaylist {
        version: 6,
        variants: vec![iframe_stream("i", "50"), rich.clone(), regular_stream("top", "aac", "200")],
        session_data: Some(SessionData {
            data_id: "com.example.title".to_string(),
            value: "title".to_string(),
            ..Default::default()
        }),
        independent_segments: true,
        ..Default::default()
    };
    let expected = MasterPlaylist {
        variants: vec![regular_stream("top", "aac", "200"), rich, iframe_stream("i", "50")],
        ..playlist.clone()
    };
    assert_eq!(reorder_playlist(playlist), Ok(expected));
}

#[test]
fn playlist_goes_by_the_fields_of_each_stream() {
    // would come out unchanged if the records did not carry the streams' fields
    let playlist = MasterPlaylist {
        variants: vec![
            iframe_stream("i", "1"),
            regular_stream("b-low", "b", "1"),
            regular_stream("a", "a", "1"),
            regular_stream("b-high", "b", "2"),
        ],
        ..Default::default()
    };
    let sorted = reorder_playlist(playlist).unwrap();
    assert_eq!(uris(&sorted), vec!["a", "b-high", "b-low", "i"]);
}

#[test]
fn playlist_without_variants_is_unchanged() {
    let playlist = MasterPlaylist { version: 3, ..Default::default() };
    assert_eq!(reorder_playlist(playlist.clone()), Ok(playlist));
}

#[test]
fn playlist_with_ungrouped_stream_fails() {
    let mut bare = regular_stream("bare", "unused", "1");
    bare.audio = None;
    let playlist = MasterPlaylist {
        variants: vec![regular_stream("ok", "a", "1"), bare],
        ..Default::default()
    };
    assert_eq!(reorder_playlist(playlist), Err(ReorderError::MissingAudioGroup));
}

#[test]
fn playlist_with_malformed_bandwidth_fails() {
    let playlist = MasterPlaylist {
        variants: vec![regular_stream("ok", "a", "1"), regular_stream("bad", "a", "")],
        ..Default::default()
    };
    assert_eq!(reorder_playlist(playlist), Err(ReorderError::MalformedBandwidth));
}
