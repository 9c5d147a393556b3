use stair_core::params::{index_of, param_id, DFB, DMIX, PARAM_COUNT, VOLUME};
use stair_core::patches::Scale;

#[test]
fn knob_identifiers() {
    let ids: Vec<&str> = (0..PARAM_COUNT).map(param_id).collect();
    assert_eq!(ids, ["attack", "decay", "release", "pitch", "dtime", "dfb", "dmix", "phaser", "drive", "volume"]);
}

#[test]
fn index_of_finds_each_knob() {
    assert_eq!(index_of("dfb"), Some(DFB));
    assert_eq!(index_of("dmix"), Some(DMIX));
    assert_eq!(index_of("volume"), Some(VOLUME));
    for i in 0..PARAM_COUNT {
        assert_eq!(index_of(param_id(i)), Some(i));
    }
}

#[test]
fn index_of_unknown_is_none() {
    assert_eq!(index_of("delay"), None);
    assert_eq!(index_of(""), None);
    assert_eq!(index_of("Drive"), None);
    assert_eq!(index_of("drive "), None);
}

#[test]
fn scale_degrees() {
    assert_eq!(Scale::Minor.degrees(), &[0, 3, 5, 7, 10]);
    assert_eq!(Scale::Whole.degrees(), &[0, 2, 4, 6, 8, 10]);
    assert_eq!(Scale::Chrom.degrees().len(), 12);
    assert_eq!(Scale::Fifths.degrees(), &[0, 7]);
    assert_eq!(Scale::Dim.degrees(), &[0, 3, 6, 9]);
    assert_eq!(Scale::Odd.degrees(), &[0, 1, 6, 11]);
}
