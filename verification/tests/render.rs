use stair_core::fx::Tap;
use stair_core::render::{out_dir, pad_index, pad_of_file, parse_tap, play_pads, split_param, take_name, Args};

fn words(s: &[&str]) -> Vec<String> {
    s.iter().map(|w| w.to_string()).collect()
}

#[test]
fn positional_words_and_options() {
    let a = Args::parse(&words(&["play", "--pad", "3", "--seed", "42", "extra"])).unwrap();
    assert_eq!(a.positional(), &words(&["play", "extra"]));
    assert_eq!(a.get("pad"), Some("3"));
    assert_eq!(a.get("seed"), Some("42"));
    assert_eq!(a.get("hold"), None);
    assert!(a.has("pad"));
    assert!(!a.has("all"));
}

#[test]
fn all_is_a_flag() {
    let a = Args::parse(&words(&["play", "--all", "--takes", "3"])).unwrap();
    assert!(a.has("all"));
    assert_eq!(a.get("all"), Some(""));
    assert_eq!(a.get("takes"), Some("3"));
    assert_eq!(a.positional(), &words(&["play"]));
}

#[test]
fn repeated_option_keeps_every_value_and_reads_the_last() {
    let a = Args::parse(&words(&["--param", "drive=60", "--param", "dfb=10", "--out", "a", "--out", "b"])).unwrap();
    assert_eq!(a.all("param"), Some(&words(&["drive=60", "dfb=10"])));
    assert_eq!(a.get("out"), Some("b"));
    assert_eq!(out_dir(&a), "b");
}

#[test]
fn option_without_value_is_refused() {
    assert!(Args::parse(&words(&["play", "--pad"])).is_none());
    assert!(Args::parse(&words(&["--all"])).is_some());
}

#[test]
fn out_dir_defaults_to_out() {
    let a = Args::parse(&words(&["play"])).unwrap();
    assert_eq!(out_dir(&a), "out");
}

#[test]
fn option_value_may_look_like_an_option() {
    let a = Args::parse(&words(&["--out", "--pad"])).unwrap();
    assert_eq!(a.get("out"), Some("--pad"));
    assert!(!a.has("pad"));
}

#[test]
fn tap_names() {
    assert_eq!(parse_tap(None), Some(Tap::Out));
    assert_eq!(parse_tap(Some("voice")), Some(Tap::Voice));
    assert_eq!(parse_tap(Some("dist")), Some(Tap::Dist));
    assert_eq!(parse_tap(Some("crush")), Some(Tap::Crush));
    assert_eq!(parse_tap(Some("phaser")), Some(Tap::Phaser));
    assert_eq!(parse_tap(Some("out")), None);
    assert_eq!(parse_tap(Some("")), None);
}

#[test]
fn pad_numbers() {
    assert_eq!(pad_index(0), None);
    assert_eq!(pad_index(1), Some(0));
    assert_eq!(pad_index(16), Some(15));
    assert_eq!(pad_index(17), None);
    assert_eq!(play_pads(true, 0), Some((0..16).collect()));
    assert_eq!(play_pads(false, 4), Some(vec![3]));
    assert_eq!(play_pads(false, 0), None);
}

#[test]
fn param_assignments_split_at_the_first_equals() {
    assert_eq!(split_param("drive=60"), Some(("drive", "60")));
    assert_eq!(split_param("a=b=c"), Some(("a", "b=c")));
    assert_eq!(split_param("=5"), Some(("", "5")));
    assert_eq!(split_param("drive"), None);
}

#[test]
fn take_names() {
    assert_eq!(take_name(0, 1), "p01-s1");
    assert_eq!(take_name(2, 7), "p03-s7");
    assert_eq!(take_name(15, 1234567890), "p16-s1234567890");
    assert_eq!(take_name(99, 0), "p100-s0");
}

#[test]
fn compare_reads_pad_numbers_from_file_names() {
    assert_eq!(pad_of_file("p03-s7.json"), Some(3));
    assert_eq!(pad_of_file("p16-s2.json"), Some(16));
    assert_eq!(pad_of_file("p+5x.json"), Some(5));
    assert_eq!(pad_of_file("p03-s7.wav"), None);
    assert_eq!(pad_of_file("q03-s7.json"), None);
    assert_eq!(pad_of_file("p3.json"), None);
    assert_eq!(pad_of_file("p.json"), None);
    for pad in 0..16 {
        for seed in [0u64, 1, 42] {
            let name = take_name(pad, seed) + ".json";
            assert_eq!(pad_of_file(&name), Some(pad + 1));
        }
    }
}
