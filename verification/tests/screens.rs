use retorrent::cli::{linked_magnet, Arguments, Input};
use retorrent::config::Config;
use retorrent::gateway::{check_port, mapping_outcome};
use retorrent::metainfo::FileInfo;
use retorrent::storage::layout::{is_mapped, is_wanted, FileSpan};
use retorrent::types::{FilePriority, TorrentState};
use retorrent::ui::rows::{
    contains_text, display_name, display_progress, downloading_count, file_progress, files_label,
    filtered_indices, matches_filter, tooltip, total_rate, FilterState,
};
use retorrent::ui::utils::{format_bytes, format_eta, format_ratio, format_speed, human_bytes};

fn numbers() -> Vec<u64> {
    let mut v: Vec<u64> = vec![0, 1, 999, 1000, 1023, 1024, 1025, 1536, 1587, 1075, u64::MAX];
    for k in 0..64u32 {
        let p = 1u64 << k;
        v.push(p);
        v.push(p.wrapping_sub(1));
        v.push(p.wrapping_add(1));
        v.push(p.wrapping_add(p / 2));
        v.push(p.wrapping_add(p / 8));
        v.push(p.wrapping_add(p / 16));
    }
    let mut x: u64 = 0x2545_f491_4f6c_dd1d;
    for i in 0..2000u32 {
        x ^= x << 13;
        x ^= x >> 7;
        x ^= x << 17;
        v.push(x >> (i % 64));
    }
    v
}

fn reference_human(n: u64) -> String {
    let units = ["B", "KiB", "MiB", "GiB", "TiB"];
    let mut v = n as f64;
    let mut u = 0;
    while v >= 1024.0 && u < units.len() - 1 {
        v /= 1024.0;
        u += 1;
    }
    format!("{:.1} {}", v, units[u])
}

fn reference_bytes(bytes: u64) -> String {
    let kb: u64 = 1024;
    let (mb, gb, tb) = (kb * kb, kb * kb * kb, kb * kb * kb * kb);
    if bytes >= tb {
        format!("{:.2} TiB", bytes as f64 / tb as f64)
    } else if bytes >= gb {
        format!("{:.2} GiB", bytes as f64 / gb as f64)
    } else if bytes >= mb {
        format!("{:.2} MiB", bytes as f64 / mb as f64)
    } else if bytes >= kb {
        format!("{:.2} KiB", bytes as f64 / kb as f64)
    } else {
        format!("{} B", bytes)
    }
}

#[test]
fn bytes_as_text() {
    assert_eq!(human_bytes(1536), "1.5 KiB");
    assert_eq!(human_bytes(0), "0.0 B");
    assert_eq!(format_bytes(1536), "1.50 KiB");
    assert_eq!(format_bytes(1023), "1023 B");
    assert_eq!(format_speed(1048576), "1.00 MiB/s");
    for n in numbers() {
        assert_eq!(human_bytes(n), reference_human(n));
        assert_eq!(format_bytes(n), reference_bytes(n));
    }
}

#[test]
fn ratios_as_text() {
    assert_eq!(format_ratio(0, 0), "0.000");
    assert_eq!(format_ratio(5, 0), "\u{221e}");
    assert_eq!(format_ratio(0, 5), "0.000");
    assert_eq!(format_ratio(1, 3), "0.333");
    assert_eq!(format_ratio(2, 1), "2.000");
    assert_eq!(format_ratio(1, 2000), "0.001");
    let v = numbers();
    for i in 0..v.len() {
        let a = v[i];
        for b in [v[(i * 7 + 3) % v.len()], v[(i * 13 + 1) % v.len()], 1, 3, 1000, 2048] {
            if a != 0 && b != 0 {
                assert_eq!(format_ratio(a, b), format!("{:.3}", a as f64 / b as f64));
            }
        }
    }
}

#[test]
fn times_as_text() {
    assert_eq!(format_eta(None), "\u{221e}");
    assert_eq!(format_eta(Some(0)), "done");
    assert_eq!(format_eta(Some(59)), "59s");
    assert_eq!(format_eta(Some(61)), "1m 01s");
    assert_eq!(format_eta(Some(3600)), "1h 00m 00s");
    assert_eq!(format_eta(Some(90061)), "25h 01m 01s");
}

#[test]
fn torrents_are_filtered() {
    assert!(matches_filter(TorrentState::FetchingMetadata, FilterState::Downloading));
    assert!(matches_filter(TorrentState::Seeding, FilterState::Complete));
    assert!(!matches_filter(TorrentState::Paused, FilterState::Seeding));
    let states = vec![TorrentState::Seeding, TorrentState::Paused, TorrentState::Complete];
    let names = vec!["\u{c4}pfel".to_string(), "birne".to_string(), "KIRSCHE".to_string()];
    assert_eq!(filtered_indices(&states, &names, FilterState::All, ""), vec![0, 1, 2]);
    assert_eq!(filtered_indices(&states, &names, FilterState::All, "\u{e4}PF"), vec![0]);
    assert_eq!(filtered_indices(&states, &names, FilterState::All, "IR"), vec![1, 2]);
    assert_eq!(filtered_indices(&states, &names, FilterState::Complete, "e"), vec![0, 2]);
    assert!(contains_text("abcabd", "abd"));
    assert!(!contains_text("ab", "abc"));
    assert!(contains_text("", ""));
}

#[test]
fn summaries_of_the_list() {
    let states = vec![TorrentState::Downloading, TorrentState::Seeding, TorrentState::Paused];
    assert_eq!(
        tooltip(&states, 1024, 0),
        "Retorrent\n\u{2B07} 1.00 KiB/s  \u{2B06} 0 B/s\n2/3 active"
    );
    assert_eq!(downloading_count(&states), 1);
    assert_eq!(total_rate(&vec![1, 2, 3]), 6);
    assert_eq!(total_rate(&vec![u64::MAX, 2]), u64::MAX);
    assert_eq!(files_label(1), "1 file");
    assert_eq!(files_label(2), "2 files");
    assert_eq!(display_name("a/b/c.txt"), "c.txt");
    assert_eq!(display_name("c.txt"), "c.txt");
    assert_eq!(display_name("c/"), "");
}

#[test]
fn progress_of_files() {
    let f = |offset: u64, length: u64| FileInfo { path: String::new(), length, offset };
    let have = [true, false, true];
    assert_eq!(file_progress(&f(0, 25), 10, &have), Some((2, 3)));
    assert_eq!(file_progress(&f(20, 30), 10, &have), Some((1, 3)));
    assert_eq!(file_progress(&f(10, 0), 10, &have), Some((0, 1)));
    assert_eq!(file_progress(&f(0, 0), 10, &have), None);
    assert_eq!(file_progress(&f(0, 5), 0, &have), None);
    let files = vec![f(0, 15), f(15, 10)];
    let n = FilePriority::Normal;
    assert_eq!(display_progress(&files, &vec![n, n], 10, &have), Some((2, 4)));
    assert_eq!(display_progress(&files, &vec![FilePriority::Skip, n], 10, &have), Some((1, 2)));
    assert_eq!(display_progress(&files, &vec![], 0, &have), Some((0, 0)));
    assert_eq!(display_progress(&files, &vec![n], 0, &have), None);
}

#[test]
fn arguments_are_read() {
    let args: Vec<String> = ["prog", "--headless", "--download-dir", "/d", "a.torrent", "--x", "magnet:?y"]
        .iter()
        .map(|s| s.to_string())
        .collect();
    let a = Arguments::parse(&args);
    assert!(a.headless);
    assert_eq!(a.download_dir.as_deref(), Some("/d"));
    assert_eq!(a.inputs, vec!["a.torrent".to_string(), "magnet:?y".to_string()]);
    let b = Arguments::parse(&vec!["p".to_string(), "--download-dir".to_string()]);
    assert!(!b.headless && b.download_dir.is_none() && b.inputs.is_empty());
    assert!(matches!(Input::of("magnet:?x"), Input::Magnet(m) if m == "magnet:?x"));
    assert!(matches!(Input::of("file:///a b"), Input::File(p) if p == "/a b"));
    assert!(matches!(Input::of("x.torrent"), Input::File(p) if p == "x.torrent"));
}

#[test]
fn settings_are_typed_in() {
    let mut c = Config::with_dir("/d".to_string());
    assert_eq!((c.listen_port, c.upload_slots, c.max_connections), (6881, 4, 800));
    let mut i = c.inputs();
    assert_eq!(i.listen_port, "6881");
    i.listen_port = "70000".to_string();
    i.upload_slots = "9".to_string();
    i.max_download_rate = "+5".to_string();
    i.choke_interval = "x".to_string();
    c.apply_inputs(&i);
    assert_eq!((c.listen_port, c.upload_slots), (6881, 9));
    assert_eq!((c.max_download_rate, c.choke_interval), (5, 10));
    assert_eq!(check_port(0), Err("external_port is 0".to_string()));
    assert_eq!(check_port(1), Ok(()));
    assert!(mapping_outcome(true, true));
    assert!(!mapping_outcome(true, false));
    assert!(!mapping_outcome(false, false));
}

#[test]
fn links_among_bytes() {
    assert_eq!(linked_magnet(b"magnet:?xt=1"), Some("magnet:?xt=1".to_string()));
    assert_eq!(linked_magnet(b"magnet:xt=1"), None);
    assert_eq!(linked_magnet(b"magnet:?\xff"), None);
    assert_eq!(linked_magnet(b"d4:info"), None);
}

#[test]
fn files_on_disk() {
    let p = [FilePriority::Skip, FilePriority::Low];
    assert!(!is_wanted(0, &p));
    assert!(is_wanted(1, &p));
    assert!(is_wanted(2, &p));
    let span = |len: usize| FileSpan { file: 0, file_offset: 0, start: 0, len };
    assert!(!is_mapped(&span(1048575)));
    assert!(is_mapped(&span(1048576)));
}
