//! The knobs' identifiers. Their values and ranges live with the audio code;
//! an identifier is also the knob's parameter ID in the plugin, so the list
//! only ever grows.

use vstd::prelude::*;
use vstd::string::StrSliceExecFns;

verus! {

pub const ATTACK: usize = 0;
pub const DECAY: usize = 1;
pub const RELEASE: usize = 2;
pub const PITCH: usize = 3;
pub const DTIME: usize = 4;
pub const DFB: usize = 5;
pub const DMIX: usize = 6;
pub const PHASER: usize = 7;
pub const DRIVE: usize = 8;
pub const VOLUME: usize = 9;

/// The number of knobs.
pub const PARAM_COUNT: usize = 10;

/// The identifier of knob `i`.
pub open spec fn id_of(i: int) -> Seq<char> {
    if i == 0 {
        "attack"@
    } else if i == 1 {
        "decay"@
    } else if i == 2 {
        "release"@
    } else if i == 3 {
        "pitch"@
    } else if i == 4 {
        "dtime"@
    } else if i == 5 {
        "dfb"@
    } else if i == 6 {
        "dmix"@
    } else if i == 7 {
        "phaser"@
    } else if i == 8 {
        "drive"@
    } else {
        "volume"@
    }
}

/// The identifier of knob `i`.
pub fn param_id(i: usize) -> (s: &'static str)
    requires
        i < PARAM_COUNT,
    ensures
        s@ == id_of(i as int),
{
    match i {
        0 => "attack",
        1 => "decay",
        2 => "release",
        3 => "pitch",
        4 => "dtime",
        5 => "dfb",
        6 => "dmix",
        7 => "phaser",
        8 => "drive",
        _ => "volume",
    }
}

/// Character-wise equality of two strings.
pub(crate) fn same_str(a: &str, b: &str) -> (r: bool)
    ensures
        r == (a@ == b@),
{
    let n = a.unicode_len();
    if n != b.unicode_len() {
        return false;
    }
    let mut i: usize = 0;
    while i < n
        invariant
            n == a@.len() == b@.len(),
            i <= n,
            forall|j: int| 0 <= j < i ==> a@[j] == b@[j],
        decreases n - i,
    {
        if a.get_char(i) != b.get_char(i) {
            return false;
        }
        i += 1;
    }
    assert(a@ =~= b@);
    true
}

/// The index of the knob named `id`, if there is one.
pub fn index_of(id: &str) -> (r: Option<usize>)
    ensures
        r matches Some(i) ==> i < PARAM_COUNT && id@ == id_of(i as int),
        r is None ==> forall|j: int| 0 <= j < PARAM_COUNT ==> id@ != id_of(j),
{
    let mut i: usize = 0;
    while i < PARAM_COUNT
        invariant
            i <= PARAM_COUNT,
            forall|j: int| 0 <= j < i ==> id@ != id_of(j),
        decreases PARAM_COUNT - i,
    {
        if same_str(id, param_id(i)) {
            return Some(i);
        }
        i += 1;
    }
    None
}

/// No two knobs share an identifier, so `index_of(param_id(i))` is `Some(i)`.
pub proof fn lemma_ids_distinct(i: int, j: int)
    requires
        0 <= i < PARAM_COUNT,
        0 <= j < PARAM_COUNT,
        id_of(i) == id_of(j),
    ensures
        i == j,
{
    reveal_strlit("attack");
    reveal_strlit("decay");
    reveal_strlit("release");
    reveal_strlit("pitch");
    reveal_strlit("dtime");
    reveal_strlit("dfb");
    reveal_strlit("dmix");
    reveal_strlit("phaser");
    reveal_strlit("drive");
    reveal_strlit("volume");
    if i != j {
        let a = id_of(i);
        let b = id_of(j);
        assert(a.len() != b.len() || a[0] != b[0] || a[1] != b[1] || a[2] != b[2]);
    }
}

} // verus!
