//! The rules of the render tool's command line: how the words after the
//! program name split into positional words and `--key value` options, and
//! what the options select.

use vstd::prelude::*;
use vstd::string::StrSliceExecFns;
use vstd::string::StringExecFns;
use crate::params::same_str;
use crate::fx::Tap;
use crate::engine::PADS;

verus! {

/// Options: each key with its values in the order given.
pub type Opts = Map<Seq<char>, Seq<Seq<char>>>;

/// A word that names an option: it starts with `--`.
pub open spec fn is_option(a: Seq<char>) -> bool {
    a.len() >= 2 && a[0] == '-' && a[1] == '-'
}

/// `opts` with `v` appended to the values of `k`.
pub open spec fn add_opt(opts: Opts, k: Seq<char>, v: Seq<char>) -> Opts {
    opts.insert(
        k,
        if opts.contains_key(k) {
            opts[k].push(v)
        } else {
            seq![v]
        },
    )
}

/// The result of reading `args` from index `i` on, with `pos` and `opts`
/// read so far. `--all` is a flag (its value is empty); every other option
/// takes the next word as its value, and is refused when none follows.
pub open spec fn parse_from(args: Seq<Seq<char>>, i: int, pos: Seq<Seq<char>>, opts: Opts) -> Option<
    (Seq<Seq<char>>, Opts),
>
    decreases args.len() - i,
{
    if i < 0 || i >= args.len() {
        Some((pos, opts))
    } else if is_option(args[i]) {
        let k = args[i].skip(2);
        if k == "all"@ {
            parse_from(args, i + 1, pos, add_opt(opts, k, Seq::empty()))
        } else if i + 1 < args.len() {
            parse_from(args, i + 2, pos, add_opt(opts, k, args[i + 1]))
        } else {
            None
        }
    } else {
        parse_from(args, i + 1, pos.push(args[i]), opts)
    }
}

/// The positional words and options that `args` reads as, or `None` when an
/// option lacks its value.
pub open spec fn parsed(args: Seq<Seq<char>>) -> Option<(Seq<Seq<char>>, Opts)> {
    parse_from(args, 0, Seq::empty(), Map::empty())
}

/// The map that parallel key and value lists stand for.
pub open spec fn opts_of(keys: Seq<Seq<char>>, vals: Seq<Seq<Seq<char>>>) -> Opts
    decreases keys.len(),
{
    if keys.len() == 0 || vals.len() == 0 {
        Map::empty()
    } else {
        opts_of(keys.drop_last(), vals.drop_last()).insert(keys.last(), vals.last())
    }
}

/// The texts of a list of strings.
pub open spec fn strs(v: Seq<String>) -> Seq<Seq<char>> {
    v.map_values(|s: String| s@)
}

/// The texts of a list of string lists.
pub open spec fn str_lists(v: Seq<Vec<String>>) -> Seq<Seq<Seq<char>>> {
    v.map_values(|l: Vec<String>| strs(l@))
}

proof fn lemma_opts_of_dom(keys: Seq<Seq<char>>, vals: Seq<Seq<Seq<char>>>, k: Seq<char>)
    requires
        keys.len() == vals.len(),
    ensures
        opts_of(keys, vals).contains_key(k) <==> keys.contains(k),
    decreases keys.len(),
{
    if keys.len() > 0 {
        lemma_opts_of_dom(keys.drop_last(), vals.drop_last(), k);
        if keys.drop_last().contains(k) {
            let j = choose|j: int| 0 <= j < keys.drop_last().len() && keys.drop_last()[j] == k;
            assert(keys[j] == k);
        }
        if keys.contains(k) && k != keys.last() {
            let j = choose|j: int| 0 <= j < keys.len() && keys[j] == k;
            assert(keys.drop_last()[j] == k);
        }
    }
}

proof fn lemma_opts_of_at(keys: Seq<Seq<char>>, vals: Seq<Seq<Seq<char>>>, i: int)
    requires
        keys.len() == vals.len(),
        0 <= i < keys.len(),
        forall|a: int, b: int| 0 <= a < b < keys.len() ==> keys[a] != keys[b],
    ensures
        opts_of(keys, vals).contains_key(keys[i]),
        opts_of(keys, vals)[keys[i]] == vals[i],
    decreases keys.len(),
{
    if i < keys.len() - 1 {
        lemma_opts_of_at(keys.drop_last(), vals.drop_last(), i);
    }
}

proof fn lemma_opts_of_update(keys: Seq<Seq<char>>, vals: Seq<Seq<Seq<char>>>, i: int, x: Seq<
    Seq<char>,
>)
    requires
        keys.len() == vals.len(),
        0 <= i < keys.len(),
        forall|a: int, b: int| 0 <= a < b < keys.len() ==> keys[a] != keys[b],
    ensures
        opts_of(keys, vals.update(i, x)) =~= opts_of(keys, vals).insert(keys[i], x),
    decreases keys.len(),
{
    if i == keys.len() - 1 {
        assert(vals.update(i, x).drop_last() =~= vals.drop_last());
        lemma_opts_of_dom(keys.drop_last(), vals.drop_last(), keys[i]);
        assert(!keys.drop_last().contains(keys[i])) by {
            if keys.drop_last().contains(keys[i]) {
                let j = choose|j: int| 0 <= j < keys.drop_last().len() && keys.drop_last()[j] == keys[i];
                assert(keys[j] == keys[i]);
            }
        }
    } else {
        assert(vals.update(i, x).drop_last() =~= vals.drop_last().update(i, x));
        lemma_opts_of_update(keys.drop_last(), vals.drop_last(), i, x);
    }
}

/// The command line, read.
pub struct Args {
    pos: Vec<String>,
    keys: Vec<String>,
    vals: Vec<Vec<String>>,
}

impl View for Args {
    type V = (Seq<Seq<char>>, Opts);

    /// The positional words and the options.
    closed spec fn view(&self) -> (Seq<Seq<char>>, Opts) {
        (strs(self.pos@), opts_of(strs(self.keys@), str_lists(self.vals@)))
    }
}

impl Args {
    /// Keys distinct, one value list per key, none empty.
    pub closed spec fn wf(&self) -> bool {
        &&& self.keys@.len() == self.vals@.len()
        &&& forall|a: int, b: int|
            0 <= a < b < self.keys@.len() ==> self.keys@[a]@ != self.keys@[b]@
        &&& forall|a: int| 0 <= a < self.vals@.len() ==> self.vals@[a]@.len() > 0
    }

    /// The index of key `k`, if present.
    fn find(&self, k: &str) -> (r: Option<usize>)
        requires
            self.wf(),
        ensures
            r matches Some(i) ==> i < self.keys@.len() && self.keys@[i as int]@ == k@,
            r is None ==> forall|j: int| 0 <= j < self.keys@.len() ==> self.keys@[j]@ != k@,
    {
        let mut i: usize = 0;
        while i < self.keys.len()
            invariant
                i <= self.keys@.len(),
                forall|j: int| 0 <= j < i ==> self.keys@[j]@ != k@,
            decreases self.keys@.len() - i,
        {
            if same_str(self.keys[i].as_str(), k) {
                return Some(i);
            }
            i += 1;
        }
        None
    }

    proof fn lemma_view_has(&self, k: Seq<char>)
        requires
            self.wf(),
        ensures
            self@.1.contains_key(k) <==> exists|j: int| 0 <= j < self.keys@.len() && self.keys@[j]@ == k,
    {
        lemma_opts_of_dom(strs(self.keys@), str_lists(self.vals@), k);
        if strs(self.keys@).contains(k) {
            let j = choose|j: int| 0 <= j < strs(self.keys@).len() && strs(self.keys@)[j] == k;
            assert(self.keys@[j]@ == k);
        }
        if exists|j: int| 0 <= j < self.keys@.len() && self.keys@[j]@ == k {
            let j = choose|j: int| 0 <= j < self.keys@.len() && self.keys@[j]@ == k;
            assert(strs(self.keys@)[j] == k);
        }
    }

    proof fn lemma_view_at(&self, i: int)
        requires
            self.wf(),
            0 <= i < self.keys@.len(),
        ensures
            self@.1.contains_key(self.keys@[i]@),
            self@.1[self.keys@[i]@] == strs(self.vals@[i]@),
    {
        lemma_opts_of_at(strs(self.keys@), str_lists(self.vals@), i);
    }

    /// Appends value `v` to option `k`.
    fn add(&mut self, k: String, v: String)
        requires
            old(self).wf(),
        ensures
            final(self).wf(),
            final(self)@.0 == old(self)@.0,
            final(self)@.1 == add_opt(old(self)@.1, k@, v@),
    {
        match self.find(k.as_str()) {
            Some(i) => {
                proof {
                    self.lemma_view_at(i as int);
                }
                let ghost keys = strs(self.keys@);
                let ghost vals = str_lists(self.vals@);
                let ghost before = self.vals@;
                self.vals[i].push(v);
                proof {
                    assert(strs(self.vals@[i as int]@) =~= strs(before[i as int]@).push(v@));
                    assert forall|j: int| 0 <= j < vals.len() implies #[trigger] str_lists(self.vals@)[j]
                        == vals.update(i as int, vals[i as int].push(v@))[j] by {
                        if j != i {
                            assert(self.vals@[j] == before[j]);
                        }
                    }
                    assert(str_lists(self.vals@) =~= vals.update(i as int, vals[i as int].push(v@)));
                    lemma_opts_of_update(keys, vals, i as int, vals[i as int].push(v@));
                    assert(strs(self.keys@) == keys);
                }
            },
            None => {
                proof {
                    self.lemma_view_has(k@);
                }
                let ghost keys = strs(self.keys@);
                let ghost vals = str_lists(self.vals@);
                let mut l: Vec<String> = Vec::new();
                l.push(v);
                self.keys.push(k);
                self.vals.push(l);
                proof {
                    assert(strs(self.keys@) =~= keys.push(k@));
                    assert(strs(self.vals@.last()@) =~= seq![v@]);
                    assert(str_lists(self.vals@) =~= vals.push(seq![v@]));
                    assert(strs(self.keys@).drop_last() =~= keys);
                    assert(str_lists(self.vals@).drop_last() =~= vals);
                    assert(self.vals@.last()@ =~= seq![v]);
                }
            },
        }
    }

    /// Reads the words after the program name. `None` when an option other
    /// than `--all` is the last word (the tool then prints its usage).
    pub fn parse(args: &Vec<String>) -> (r: Option<Args>)
        ensures
            r matches Some(a) ==> a.wf() && parsed(strs(args@)) == Some(a@),
            r is None ==> parsed(strs(args@)) is None,
    {
        let ghost all = strs(args@);
        let mut a = Args { pos: Vec::new(), keys: Vec::new(), vals: Vec::new() };
        proof {
            assert(a@.0 =~= Seq::<Seq<char>>::empty());
            assert(a@.1 =~= Map::<Seq<char>, Seq<Seq<char>>>::empty());
        }
        let n = args.len();
        let mut i: usize = 0;
        while i < n
            invariant
                n == args@.len(),
                all == strs(args@),
                i <= n,
                a.wf(),
                parsed(all) == parse_from(all, i as int, a@.0, a@.1),
            decreases n - i,
        {
            let w = args[i].as_str();
            let long = w.unicode_len();
            if long >= 2 && w.get_char(0) == '-' && w.get_char(1) == '-' {
                let k = w.substring_char(2, long).to_owned();
                proof {
                    assert(k@ =~= all[i as int].skip(2));
                }
                if same_str(k.as_str(), "all") {
                    a.add(k, String::new());
                    i += 1;
                } else if i + 1 < n {
                    let v = args[i + 1].clone();
                    a.add(k, v);
                    i += 2;
                } else {
                    return None;
                }
            } else {
                let ghost before = a@.0;
                a.pos.push(args[i].clone());
                proof {
                    assert(a@.0 =~= before.push(all[i as int]));
                }
                i += 1;
            }
        }
        Some(a)
    }

    /// The positional words.
    pub fn positional(&self) -> (p: &Vec<String>)
        ensures
            strs(p@) == self@.0,
    {
        &self.pos
    }

    /// The last value given for option `k`.
    pub fn get(&self, k: &str) -> (r: Option<&str>)
        requires
            self.wf(),
        ensures
            r is Some <==> self@.1.contains_key(k@),
            r matches Some(v) ==> v@ == self@.1[k@].last(),
    {
        proof {
            self.lemma_view_has(k@);
        }
        match self.find(k) {
            Some(i) => {
                proof {
                    self.lemma_view_at(i as int);
                }
                let l = &self.vals[i];
                Some(l[l.len() - 1].as_str())
            },
            None => None,
        }
    }

    /// Every value given for option `k`, in order.
    pub fn all(&self, k: &str) -> (r: Option<&Vec<String>>)
        requires
            self.wf(),
        ensures
            r is Some <==> self@.1.contains_key(k@),
            r matches Some(v) ==> strs(v@) == self@.1[k@],
    {
        proof {
            self.lemma_view_has(k@);
        }
        match self.find(k) {
            Some(i) => {
                proof {
                    self.lemma_view_at(i as int);
                }
                Some(&self.vals[i])
            },
            None => None,
        }
    }

    /// Whether option `k` was given.
    pub fn has(&self, k: &str) -> (r: bool)
        requires
            self.wf(),
        ensures
            r == self@.1.contains_key(k@),
    {
        proof {
            self.lemma_view_has(k@);
        }
        self.find(k).is_some()
    }
}

/// The output directory: the last `--out`, else `out`.
pub fn out_dir(a: &Args) -> (d: &str)
    requires
        a.wf(),
    ensures
        d@ == if a@.1.contains_key("out"@) {
            a@.1["out"@].last()
        } else {
            "out"@
        },
{
    match a.get("out") {
        Some(d) => d,
        None => "out",
    }
}


/// The stage selected by `--tap`: none selects the finished output; an
/// unknown name is refused (`None`).
pub fn parse_tap(v: Option<&str>) -> (r: Option<Tap>)
    ensures
        v is None ==> r == Some(Tap::Out),
        v matches Some(s) ==> r == if s@ == "voice"@ {
            Some(Tap::Voice)
        } else if s@ == "dist"@ {
            Some(Tap::Dist)
        } else if s@ == "crush"@ {
            Some(Tap::Crush)
        } else if s@ == "phaser"@ {
            Some(Tap::Phaser)
        } else {
            None
        },
{
    match v {
        None => Some(Tap::Out),
        Some(s) => {
            if same_str(s, "voice") {
                Some(Tap::Voice)
            } else if same_str(s, "dist") {
                Some(Tap::Dist)
            } else if same_str(s, "crush") {
                Some(Tap::Crush)
            } else if same_str(s, "phaser") {
                Some(Tap::Phaser)
            } else {
                None
            }
        },
    }
}

/// The pad numbered `p` on the command line (1 to 16) as a pad index.
pub fn pad_index(p: usize) -> (r: Option<usize>)
    ensures
        1 <= p <= PADS ==> r == Some((p - 1) as usize),
        !(1 <= p <= PADS) ==> r is None,
{
    if p < 1 || p > PADS {
        None
    } else {
        Some(p - 1)
    }
}

/// The pads that `play` renders: every pad with `--all`, else the one that
/// `--pad p` names; `None` when `p` names no pad.
pub fn play_pads(all: bool, p: usize) -> (r: Option<Vec<usize>>)
    ensures
        all ==> (r matches Some(v) && v@ == Seq::new(PADS as nat, |i: int| i as usize)),
        !all && 1 <= p <= PADS ==> (r matches Some(v) && v@ == seq![(p - 1) as usize]),
        !all && !(1 <= p <= PADS) ==> r is None,
{
    if all {
        let mut v: Vec<usize> = Vec::new();
        let mut i: usize = 0;
        while i < PADS
            invariant
                i <= PADS,
                v@ =~= Seq::new(i as nat, |j: int| j as usize),
            decreases PADS - i,
        {
            v.push(i);
            i += 1;
        }
        Some(v)
    } else {
        match pad_index(p) {
            Some(i) => {
                let mut v: Vec<usize> = Vec::new();
                v.push(i);
                assert(v@ =~= seq![(p - 1) as usize]);
                Some(v)
            },
            None => None,
        }
    }
}

/// The first position of `c` in `s`, if any.
pub open spec fn first_index_of(s: Seq<char>, c: char) -> Option<int> {
    if exists|i: int| 0 <= i < s.len() && s[i] == c {
        Some(choose|i: int| 0 <= i < s.len() && s[i] == c && forall|j: int| 0 <= j < i ==> s[j] != c)
    } else {
        None
    }
}

/// Splits `--param id=value` at its first `=` into the knob's identifier and
/// the value's text; `None` without an `=` (the tool then prints its usage).
pub fn split_param(s: &str) -> (r: Option<(&str, &str)>)
    ensures
        r is Some <==> first_index_of(s@, '=') is Some,
        r matches Some((k, v)) ==> {
            let i = first_index_of(s@, '=')->0;
            k@ == s@.take(i) && v@ == s@.skip(i + 1)
        },
{
    let n = s.unicode_len();
    let mut i: usize = 0;
    while i < n
        invariant
            n == s@.len(),
            i <= n,
            forall|j: int| 0 <= j < i ==> s@[j] != '=',
        decreases n - i,
    {
        if s.get_char(i) == '=' {
            let ghost w = choose|w: int| 0 <= w < s@.len() && s@[w] == '=' && forall|j: int| 0 <= j < w ==> s@[j] != '=';
            proof {
                assert(s@[i as int] == '=');
                if w < i {
                    assert(s@[w] != '=');
                }
                if w > i {
                    assert(s@[i as int] != '=');
                }
            }
            let k = s.substring_char(0, i);
            let v = s.substring_char(i + 1, n);
            assert(k@ =~= s@.take(i as int));
            assert(v@ =~= s@.skip(i + 1));
            return Some((k, v));
        }
        i += 1;
    }
    None
}

/// The character of decimal digit `d`.
pub open spec fn digit_char(d: nat) -> char {
    (48 + d) as char
}

/// `n` in decimal.
pub open spec fn decimal(n: nat) -> Seq<char>
    decreases n,
{
    if n < 10 {
        seq![digit_char(n)]
    } else {
        decimal(n / 10).push(digit_char(n % 10))
    }
}

/// `n` in decimal, with a leading zero below 10.
pub open spec fn two_digits(n: nat) -> Seq<char> {
    if n < 10 {
        seq!['0', digit_char(n)]
    } else {
        decimal(n)
    }
}

/// The name (without extension) under which `play` stores take `seed` of
/// pad index `pad`: `p`, the pad's number in two digits, `-s`, the seed.
pub open spec fn take_name_of(pad: nat, seed: nat) -> Seq<char> {
    seq!['p'] + two_digits(pad + 1) + seq!['-', 's'] + decimal(seed)
}

/// The extension of the metrics files.
pub open spec fn json_ext() -> Seq<char> {
    seq!['.', 'j', 's', 'o', 'n']
}

/// The value of a two-character unsigned number as Rust reads it: two
/// digits, or `+` and one digit.
pub open spec fn two_char_number(a: char, b: char) -> Option<nat> {
    let da = a as int - 48;
    let db = b as int - 48;
    if 0 <= da < 10 && 0 <= db < 10 {
        Some((10 * da + db) as nat)
    } else if a == '+' && 0 <= db < 10 {
        Some(db as nat)
    } else {
        None
    }
}

/// The file `name` is a metrics file of a take (`p…….json`).
pub open spec fn is_take_file(name: Seq<char>) -> bool {
    &&& name.len() >= json_ext().len()
    &&& name.skip(name.len() - json_ext().len()) == json_ext()
    &&& name.len() > 0 && name[0] == 'p'
}

/// The pad number that `compare` reads from a file name: the two characters
/// after the `p` of a take's metrics file, read as a number.
pub open spec fn pad_of_file_name(name: Seq<char>) -> Option<nat> {
    if is_take_file(name) {
        two_char_number(name[1], name[2])
    } else {
        None
    }
}

fn digit_str(d: u64) -> (s: &'static str)
    requires
        d < 10,
    ensures
        s@ == seq![digit_char(d as nat)],
{
    proof {
        reveal_strlit("0");
        reveal_strlit("1");
        reveal_strlit("2");
        reveal_strlit("3");
        reveal_strlit("4");
        reveal_strlit("5");
        reveal_strlit("6");
        reveal_strlit("7");
        reveal_strlit("8");
        reveal_strlit("9");
    }
    let s = match d {
        0 => "0",
        1 => "1",
        2 => "2",
        3 => "3",
        4 => "4",
        5 => "5",
        6 => "6",
        7 => "7",
        8 => "8",
        _ => "9",
    };
    assert(s@ =~= seq![digit_char(d as nat)]);
    s
}

fn push_decimal(s: &mut String, n: u64)
    ensures
        final(s)@ == old(s)@ + decimal(n as nat),
    decreases n,
{
    if n >= 10 {
        push_decimal(s, n / 10);
    }
    s.append(digit_str(n % 10));
    proof {
        if n >= 10 {
            assert(old(s)@ + decimal(n as nat) =~= old(s)@ + decimal((n / 10) as nat) + seq![
                digit_char((n % 10) as nat),
            ]);
        } else {
            assert(old(s)@ + decimal(n as nat) =~= old(s)@ + seq![digit_char(n as nat)]);
        }
    }
}

/// The name of take `seed` of pad index `pad` (see `take_name_of`).
pub fn take_name(pad: usize, seed: u64) -> (s: String)
    requires
        pad < u64::MAX,
    ensures
        s@ == take_name_of(pad as nat, seed as nat),
{
    proof {
        reveal_strlit("p");
        reveal_strlit("0");
        reveal_strlit("-s");
    }
    let mut s = String::new();
    s.append("p");
    let n = pad as u64 + 1;
    if n < 10 {
        s.append("0");
    }
    push_decimal(&mut s, n);
    s.append("-s");
    push_decimal(&mut s, seed);
    assert(s@ =~= take_name_of(pad as nat, seed as nat));
    s
}

/// The pad number in the name of a take's metrics file, as `compare` reads
/// it; `None` for other files and for names without a number there.
pub fn pad_of_file(name: &str) -> (r: Option<usize>)
    requires
        is_take_file(name@) ==> name.is_char_boundary(1) && name.is_char_boundary(3),
    ensures
        r matches Some(p) ==> pad_of_file_name(name@) == Some(p as nat),
        r is None ==> pad_of_file_name(name@) is None,
        r is Some ==> name@.len() >= 8 && name@[0] == 'p' && name@.subrange(
            name@.len() - 5,
            name@.len() as int,
        ) == seq!['.', 'j', 's', 'o', 'n'],
        name@.len() >= 5 && name@[0] == 'p' && name@.subrange(name@.len() - 5, name@.len() as int)
            == seq!['.', 'j', 's', 'o', 'n'] && 48 <= name@[1] as int <= 57 && 48 <= name@[2] as int
            <= 57 ==> r == Some((10 * (name@[1] as int - 48) + (name@[2] as int - 48)) as usize),
{
    proof {
        lemma_pad_only_from_json(name@);
    }
    let n = name.unicode_len();
    if n < 6 || name.get_char(0) != 'p' {
        return None;
    }
    let tail = name.substring_char(n - 5, n);
    proof {
        reveal_strlit(".json");
        assert(".json"@ =~= json_ext());
    }
    if !same_str(tail, ".json") {
        return None;
    }
    let a = name.get_char(1);
    let b = name.get_char(2);
    let da = a as u32;
    let db = b as u32;
    if 48 <= da && da < 58 && 48 <= db && db < 58 {
        Some(((da - 48) * 10 + (db - 48)) as usize)
    } else if a == '+' && 48 <= db && db < 58 {
        Some((db - 48) as usize)
    } else {
        None
    }
}

/// The pad number that `compare` reads back from the metrics file of a take
/// is the number of the pad the take was played on.
pub proof fn lemma_take_name_round_trip(pad: nat, seed: nat)
    requires
        pad < PADS,
    ensures
        pad_of_file_name(take_name_of(pad, seed) + json_ext()) == Some(pad + 1),
{
    let name = take_name_of(pad, seed) + json_ext();
    let n = pad + 1;
    if n < 10 {
        assert(two_digits(n) == seq!['0', digit_char(n)]);
    } else {
        assert(decimal((n / 10) as nat) == seq![digit_char((n / 10) as nat)]);
        assert(two_digits(n) =~= seq![digit_char((n / 10) as nat), digit_char((n % 10) as nat)]);
    }
    assert(name.skip(name.len() - json_ext().len()) =~= json_ext());
    assert(name[1] == two_digits(n)[0]);
    assert(name[2] == two_digits(n)[1]);
}

/// `compare` reads a pad number from metrics files only: a name that gives
/// one starts with `p`, ends with `.json` and has at least eight characters;
/// and every name that starts with `p` and ends with `.json` and whose second
/// and third characters are decimal digits gives the number they spell (as
/// does a `+` sign and one digit); any other second and third characters
/// give none.
pub proof fn lemma_pad_only_from_json(name: Seq<char>)
    ensures
        pad_of_file_name(name) is Some ==> name.len() >= 8 && name[0] == 'p' && name.subrange(
            name.len() - 5,
            name.len() as int,
        ) == seq!['.', 'j', 's', 'o', 'n'],
        name.len() >= 5 && name[0] == 'p' && name.subrange(name.len() - 5, name.len() as int)
            == seq!['.', 'j', 's', 'o', 'n'] && 48 <= name[1] as int <= 57 && 48 <= name[2] as int
            <= 57 ==> pad_of_file_name(name) == Some(
            (10 * (name[1] as int - 48) + (name[2] as int - 48)) as nat,
        ),
        name.len() >= 5 && name[0] == 'p' && name.subrange(name.len() - 5, name.len() as int)
            == seq!['.', 'j', 's', 'o', 'n'] && name[1] == '+' && 48 <= name[2] as int <= 57
            ==> pad_of_file_name(name) == Some((name[2] as int - 48) as nat),
        pad_of_file_name(name) is Some ==> (48 <= name[1] as int <= 57 || name[1] == '+') && 48
            <= name[2] as int <= 57,
{
    let n = name.len() as int;
    if n >= 5 {
        assert(name.skip(n - 5) =~= name.subrange(n - 5, n));
        if name.subrange(n - 5, n) == seq!['.', 'j', 's', 'o', 'n'] {
            assert(name[n - 5] == name.subrange(n - 5, n)[0]);
            assert(name[n - 4] == name.subrange(n - 5, n)[1]);
        }
    }
}

/// The sound and the spectrogram that `play` writes beside a take's metrics
/// file (its name with `.wav` or `.png`) give `compare` no pad number.
pub proof fn lemma_take_media_not_metrics(pad: nat, seed: nat)
    ensures
        pad_of_file_name(take_name_of(pad, seed) + seq!['.', 'w', 'a', 'v']) is None,
        pad_of_file_name(take_name_of(pad, seed) + seq!['.', 'p', 'n', 'g']) is None,
{
    let wav = take_name_of(pad, seed) + seq!['.', 'w', 'a', 'v'];
    let png = take_name_of(pad, seed) + seq!['.', 'p', 'n', 'g'];
    lemma_pad_only_from_json(wav);
    lemma_pad_only_from_json(png);
    if wav.len() >= 5 {
        assert(wav[wav.len() - 1] == 'v');
        assert(wav.subrange(wav.len() - 5, wav.len() as int)[4] == 'v');
    }
    if png.len() >= 5 {
        assert(png[png.len() - 1] == 'g');
        assert(png.subrange(png.len() - 5, png.len() as int)[4] == 'g');
    }
}

} // verus!
