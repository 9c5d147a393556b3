use stair_core::engine::{Slot, VoicePool, MAX_VOICES, PADS};

#[test]
fn fresh_pool_is_silent() {
    let p = VoicePool::new();
    assert_eq!(p.voice_count(), 0);
    for i in 0..MAX_VOICES {
        assert_eq!(p.slot(i), Slot { active: false, pad: 0, released: false, born: 0 });
    }
}

#[test]
fn press_takes_first_free_voice() {
    let mut p = VoicePool::new();
    assert_eq!(p.note_on(3), Some(0));
    assert_eq!(p.note_on(5), Some(1));
    assert_eq!(p.slot(0), Slot { active: true, pad: 3, released: false, born: 1 });
    assert_eq!(p.slot(1), Slot { active: true, pad: 5, released: false, born: 2 });
    assert_eq!(p.voice_count(), 2);
}

#[test]
fn press_of_unknown_pad_is_ignored() {
    let mut p = VoicePool::new();
    assert_eq!(p.note_on(PADS), None);
    assert_eq!(p.note_on(1000), None);
    assert_eq!(p.voice_count(), 0);
    // the next press still gets start number 1
    p.note_on(0);
    assert_eq!(p.slot(0).born, 1);
}

#[test]
fn at_most_forty_voices() {
    let mut p = VoicePool::new();
    for i in 0..60 {
        p.note_on(i % PADS);
    }
    assert_eq!(p.voice_count(), 40);
}

#[test]
fn full_pool_steals_the_oldest_released_voice() {
    let mut p = VoicePool::new();
    for i in 0..MAX_VOICES {
        p.note_on(i % PADS);
    }
    let mut out = vec![];
    // pad 5 sounds in voices 5, 21 and 37; release them
    p.note_off(5, &mut out);
    assert_eq!(out, vec![5, 21, 37]);
    assert_eq!(p.note_on(2), Some(5));
    assert_eq!(p.note_on(2), Some(21));
    assert_eq!(p.note_on(2), Some(37));
    // nothing released: the oldest voice goes
    assert_eq!(p.note_on(2), Some(0));
    assert_eq!(p.slot(0).born, 44);
    assert_eq!(p.voice_count(), 40);
}

#[test]
fn full_pool_without_releases_steals_the_oldest() {
    let mut p = VoicePool::new();
    for _ in 0..MAX_VOICES {
        p.note_on(0);
    }
    assert_eq!(p.note_on(1), Some(0));
    assert_eq!(p.note_on(1), Some(1));
}

#[test]
fn release_reaches_only_held_voices_of_that_pad() {
    let mut p = VoicePool::new();
    p.note_on(4);
    p.note_on(7);
    p.note_on(4);
    let mut out = vec![99];
    p.note_off(4, &mut out);
    assert_eq!(out, vec![0, 2]);
    assert!(p.slot(0).released && p.slot(2).released && !p.slot(1).released);
    // a second release finds nothing left
    p.note_off(4, &mut out);
    assert!(out.is_empty());
    assert_eq!(p.voice_count(), 3);
}

#[test]
fn finished_voice_frees_its_slot() {
    let mut p = VoicePool::new();
    p.note_on(1);
    p.note_on(2);
    let mut out = vec![];
    p.note_off(1, &mut out);
    p.finish(0);
    assert_eq!(p.voice_count(), 1);
    assert!(!p.slot(0).active);
    assert_eq!(p.note_on(9), Some(0));
}

#[test]
fn order_is_start_order() {
    let mut p = VoicePool::new();
    p.note_on(0);
    p.note_on(1);
    p.note_on(2);
    p.finish(0);
    p.note_on(3); // takes voice 0, newest
    let mut out = vec![];
    p.order(&mut out);
    assert_eq!(out, vec![1, 2, 0]);
}

#[test]
fn order_lists_every_sounding_voice_once() {
    let mut p = VoicePool::new();
    for i in 0..45 {
        p.note_on(i % PADS);
    }
    let mut released = vec![];
    p.note_off(3, &mut released);
    assert_eq!(p.voice_count(), 40);
    let mut out = vec![7, 7, 7];
    p.order(&mut out);
    assert_eq!(out.len(), p.voice_count());
    // the five newest presses took voices 0..5; voice 5 is now the oldest
    assert_eq!(out[0], 5);
    assert_eq!(&out[35..], &[0, 1, 2, 3, 4]);
}
