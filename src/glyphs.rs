//! The alphabet store: glyphs looked up by printable character or by name,
//! with a shared fallback glyph for every key that is not present.

use vstd::prelude::*;
use crate::event::{Ev, END_GLYPH, is_glyph, duration};
use crate::timeline::{
    equal_spaced, equal_spaced_evs, glyph_views, lemma_equal_spaced_glyph,
    lemma_stitch_glyphs_fit, lemma_stitched_is_glyph, stitch_evs, stitched, total_duration,
};

verus! {

/// The map that a list of entries describes: a later entry overrides an
/// earlier one with the same key.
pub open spec fn assoc<K, V>(es: Seq<(K, V)>) -> Map<K, V>
    decreases es.len(),
{
    if es.len() == 0 {
        Map::empty()
    } else {
        assoc(es.drop_last()).insert(es.last().0, es.last().1)
    }
}

/// No two entries share a key.
pub open spec fn keys_unique<K, V>(es: Seq<(K, V)>) -> bool {
    forall|i: int, j: int| 0 <= i < j < es.len() ==> (#[trigger] es[i]).0 != (#[trigger] es[j]).0
}

proof fn lemma_assoc_has<K, V>(es: Seq<(K, V)>, i: int)
    requires
        keys_unique(es),
        0 <= i < es.len(),
    ensures
        assoc(es).contains_key(es[i].0),
        assoc(es)[es[i].0] == es[i].1,
    decreases es.len(),
{
    if i < es.len() - 1 {
        let init = es.drop_last();
        assert(init[i] == es[i]);
        assert(es[i].0 != es[es.len() - 1].0);
        lemma_assoc_has(init, i);
    }
}

proof fn lemma_assoc_lacks<K, V>(es: Seq<(K, V)>, k: K)
    requires
        forall|i: int| 0 <= i < es.len() ==> (#[trigger] es[i]).0 != k,
    ensures
        !assoc(es).contains_key(k),
    decreases es.len(),
{
    if es.len() > 0 {
        let init = es.drop_last();
        assert forall|i: int| 0 <= i < init.len() implies (#[trigger] init[i]).0 != k by {
            assert(init[i] == es[i]);
        }
        assert(es[es.len() - 1].0 != k);
        lemma_assoc_lacks(init, k);
    }
}

proof fn lemma_assoc_update<K, V>(es: Seq<(K, V)>, i: int, v: V)
    requires
        keys_unique(es),
        0 <= i < es.len(),
    ensures
        keys_unique(es.update(i, (es[i].0, v))),
        assoc(es.update(i, (es[i].0, v))) == assoc(es).insert(es[i].0, v),
    decreases es.len(),
{
    let up = es.update(i, (es[i].0, v));
    assert forall|a: int, b: int| 0 <= a < b < up.len() implies (#[trigger] up[a]).0 != (
    #[trigger] up[b]).0 by {
        assert(es[a].0 != es[b].0);
    }
    let init = es.drop_last();
    if i == es.len() - 1 {
        assert(up.drop_last() =~= init);
        assert(assoc(up) =~= assoc(es).insert(es[i].0, v));
    } else {
        assert(up.drop_last() =~= init.update(i, (init[i].0, v)));
        assert(es[i].0 != es[es.len() - 1].0);
        lemma_assoc_update(init, i, v);
        assert(assoc(up) =~= assoc(es).insert(es[i].0, v));
    }
}

proof fn lemma_assoc_push<K, V>(es: Seq<(K, V)>, k: K, v: V)
    requires
        keys_unique(es),
        forall|i: int| 0 <= i < es.len() ==> (#[trigger] es[i]).0 != k,
    ensures
        keys_unique(es.push((k, v))),
        assoc(es.push((k, v))) == assoc(es).insert(k, v),
{
    let up = es.push((k, v));
    assert(up.drop_last() =~= es);
    assert forall|a: int, b: int| 0 <= a < b < up.len() implies (#[trigger] up[a]).0 != (
    #[trigger] up[b]).0 by {
        if b < es.len() {
            assert(es[a].0 != es[b].0);
        } else {
            assert(es[a].0 != k);
        }
    }
}

/// The fallback glyph: motor 0 at 0 ms, then the sentinel at 200 ms.
pub open spec fn unknown_glyph() -> Seq<Ev> {
    seq![Ev { ms_time: 0, ev_type: 0 }, Ev { ms_time: 200, ev_type: END_GLYPH }]
}

/// Number of printable characters, `' '` to `'~'` inclusive.
pub const PRINTABLE_COUNT: usize = 95;

/// `c` has a slot in the dense table of an alphabet.
pub open spec fn is_printable(c: char) -> bool {
    ' ' <= c <= '~'
}

/// The slot of a printable character in the dense table.
pub open spec fn printable_slot(c: char) -> int {
    c as int - ' ' as int
}

/// What an alphabet holds.
pub struct AlphabetView {
    /// One glyph per printable character, `' '` first.
    pub ascii: Seq<Seq<Ev>>,
    /// Glyphs of characters outside the printable range.
    pub chars: Map<char, Seq<Ev>>,
    /// Glyphs looked up by name.
    pub named: Map<Seq<char>, Seq<Ev>>,
    /// The glyph that every missing key resolves to.
    pub unknown: Seq<Ev>,
}

impl AlphabetView {
    pub open spec fn wf(self) -> bool {
        &&& self.ascii.len() == PRINTABLE_COUNT
        &&& self.unknown == unknown_glyph()
    }

    /// The glyph that character `c` resolves to.
    pub open spec fn glyph(self, c: char) -> Seq<Ev> {
        if is_printable(c) {
            self.ascii[printable_slot(c)]
        } else if self.chars.contains_key(c) {
            self.chars[c]
        } else {
            self.unknown
        }
    }

    /// Everything the alphabet holds is a well-formed glyph.
    pub open spec fn holds_glyphs(self) -> bool {
        &&& forall|i: int| 0 <= i < self.ascii.len() ==> is_glyph(#[trigger] self.ascii[i])
        &&& forall|c: char| #[trigger] self.chars.contains_key(c) ==> is_glyph(self.chars[c])
        &&& forall|s: Seq<char>| #[trigger] self.named.contains_key(s) ==> is_glyph(self.named[s])
        &&& is_glyph(self.unknown)
    }

    /// The glyph that name `s` resolves to.
    pub open spec fn named_glyph(self, s: Seq<char>) -> Seq<Ev> {
        if self.named.contains_key(s) {
            self.named[s]
        } else {
            self.unknown
        }
    }
}

/// A collection of glyphs keyed by printable character and by name. Every
/// lookup resolves: a missing key gives the alphabet's unknown glyph.
pub struct Alphabet {
    ascii_block: Vec<Vec<Ev>>,
    char_map: Vec<(char, Vec<Ev>)>,
    other_map: Vec<(String, Vec<Ev>)>,
    unknown_glyph: Vec<Ev>,
}

/// The character entries of an alphabet, as values.
pub open spec fn char_entries(es: Seq<(char, Vec<Ev>)>) -> Seq<(char, Seq<Ev>)> {
    es.map_values(|e: (char, Vec<Ev>)| (e.0, e.1@))
}

/// The named entries of an alphabet, as values.
pub open spec fn named_entries(es: Seq<(String, Vec<Ev>)>) -> Seq<(Seq<char>, Seq<Ev>)> {
    es.map_values(|e: (String, Vec<Ev>)| (e.0@, e.1@))
}

/// A fresh alphabet: every printable character and the newline give the
/// unknown glyph, and no name is registered.
pub open spec fn default_alphabet() -> AlphabetView {
    AlphabetView {
        ascii: Seq::new(PRINTABLE_COUNT as nat, |i: int| unknown_glyph()),
        chars: Map::empty().insert('\n', unknown_glyph()),
        named: Map::empty(),
        unknown: unknown_glyph(),
    }
}

/// The name/glyph pairs of a batch, as values.
pub open spec fn pairs_view(gls: Seq<(&str, Vec<Ev>)>) -> Seq<(Seq<char>, Seq<Ev>)> {
    gls.map_values(|e: (&str, Vec<Ev>)| (e.0@, e.1@))
}

/// Every character and every name that has no entry resolves to the unknown
/// glyph, which plays motor 0 at 0 ms and ends at 200 ms.
pub proof fn lemma_missing_keys_give_unknown(a: AlphabetView, c: char, s: Seq<char>)
    requires
        a.wf(),
    ensures
        !is_printable(c) && !a.chars.contains_key(c) ==> a.glyph(c) == a.unknown,
        !a.named.contains_key(s) ==> a.named_glyph(s) == a.unknown,
        a.unknown == seq![Ev { ms_time: 0, ev_type: 0 }, Ev { ms_time: 200, ev_type: END_GLYPH }],
{
}

fn unknown_glyph_evs() -> (r: Vec<Ev>)
    ensures
        r@ == unknown_glyph(),
{
    let mut g: Vec<Ev> = Vec::new();
    g.push(Ev::new(0, 0));
    g.push(Ev::new(200, END_GLYPH));
    assert(g@ =~= unknown_glyph());
    g
}

impl Default for Alphabet {
    fn default() -> (r: Self)
        ensures
            r.wf(),
            r@ == default_alphabet(),
    {
        let mut ascii_block: Vec<Vec<Ev>> = Vec::new();
        let mut i: usize = 0;
        while i < PRINTABLE_COUNT
            invariant
                i <= PRINTABLE_COUNT,
                ascii_block@.len() == i,
                forall|k: int| 0 <= k < i ==> (#[trigger] ascii_block@[k])@ == unknown_glyph(),
            decreases PRINTABLE_COUNT - i,
        {
            ascii_block.push(unknown_glyph_evs());
            i = i + 1;
        }
        let mut char_map: Vec<(char, Vec<Ev>)> = Vec::new();
        char_map.push(('\n', unknown_glyph_evs()));
        let r = Alphabet {
            ascii_block,
            char_map,
            other_map: Vec::new(),
            unknown_glyph: unknown_glyph_evs(),
        };
        proof {
            let es = char_entries(r.char_map@);
            assert(es.drop_last() =~= Seq::<(char, Seq<Ev>)>::empty());
            assert(es.last() == ('\n', unknown_glyph()));
            assert(r@.ascii =~= default_alphabet().ascii);
            assert(r@.chars =~= default_alphabet().chars) by {
                reveal_with_fuel(assoc, 2);
            }
            assert(r@.named =~= default_alphabet().named);
        }
        r
    }
}

impl View for Alphabet {
    type V = AlphabetView;

    closed spec fn view(&self) -> AlphabetView {
        AlphabetView {
            ascii: self.ascii_block@.map_values(|g: Vec<Ev>| g@),
            chars: assoc(char_entries(self.char_map@)),
            named: assoc(named_entries(self.other_map@)),
            unknown: self.unknown_glyph@,
        }
    }
}

impl Alphabet {
    /// The alphabet is consistent: a full dense table, the standard unknown
    /// glyph, and one entry per key.
    pub open spec fn wf(&self) -> bool {
        &&& self@.wf()
        &&& self.keys_unique()
    }

    /// No key has two entries.
    pub closed spec fn keys_unique(&self) -> bool {
        &&& keys_unique(char_entries(self.char_map@))
        &&& keys_unique(named_entries(self.other_map@))
    }

    /// The glyph of character `c`: its slot in the dense table when printable,
    /// else its own entry, else the unknown glyph.
    pub fn get_glyph(&self, c: char) -> (r: &[Ev])
        requires
            self.wf(),
        ensures
            r@ == self@.glyph(c),
    {
        if c >= ' ' && c <= '~' {
            let idx = (c as u32 - ' ' as u32) as usize;
            self.ascii_block[idx].as_slice()
        } else {
            let mut i: usize = 0;
            while i < self.char_map.len()
                invariant
                    self.wf(),
                    !is_printable(c),
                    i <= self.char_map@.len(),
                    forall|k: int| 0 <= k < i ==> (#[trigger] self.char_map@[k]).0 != c,
                decreases self.char_map@.len() - i,
            {
                if self.char_map[i].0 == c {
                    proof {
                        let es = char_entries(self.char_map@);
                        assert(es[i as int] == (c, self.char_map@[i as int].1@));
                        lemma_assoc_has(es, i as int);
                    }
                    return self.char_map[i].1.as_slice();
                }
                i = i + 1;
            }
            proof {
                let es = char_entries(self.char_map@);
                assert forall|k: int| 0 <= k < es.len() implies (#[trigger] es[k]).0 != c by {
                    assert(es[k].0 == self.char_map@[k].0);
                }
                lemma_assoc_lacks(es, c);
            }
            self.unknown_glyph.as_slice()
        }
    }

    /// Index of the entry named `key`, if there is one.
    fn find_named(&self, key: &String) -> (r: Option<usize>)
        requires
            self.wf(),
        ensures
            match r {
                Some(i) => i < self.other_map@.len() && self.other_map@[i as int].0@ == key@,
                None => forall|k: int|
                    0 <= k < self.other_map@.len() ==> (#[trigger] self.other_map@[k]).0@ != key@,
            },
    {
        let mut i: usize = 0;
        while i < self.other_map.len()
            invariant
                i <= self.other_map@.len(),
                forall|k: int| 0 <= k < i ==> (#[trigger] self.other_map@[k]).0@ != key@,
            decreases self.other_map@.len() - i,
        {
            if self.other_map[i].0 == *key {
                return Some(i);
            }
            i = i + 1;
        }
        None
    }

    /// The glyph named `s`, or the unknown glyph when there is none.
    pub fn get_other_glyph(&self, s: &str) -> (r: &[Ev])
        requires
            self.wf(),
        ensures
            r@ == self@.named_glyph(s@),
    {
        let key = s.to_owned();
        let es = Ghost(named_entries(self.other_map@));
        match self.find_named(&key) {
            Some(i) => {
                proof {
                    lemma_assoc_has(es@, i as int);
                }
                self.other_map[i].1.as_slice()
            },
            None => {
                proof {
                    assert forall|k: int| 0 <= k < es@.len() implies (#[trigger] es@[k]).0 != s@ by {
                        assert(es@[k].0 == self.other_map@[k].0@);
                    }
                    lemma_assoc_lacks(es@, s@);
                }
                self.unknown_glyph.as_slice()
            },
        }
    }

    /// Registers `g` under name `s`, replacing any glyph of that name.
    pub fn add_other_glyph(&mut self, s: &str, g: Vec<Ev>)
        requires
            old(self).wf(),
        ensures
            final(self).wf(),
            final(self)@ == (AlphabetView { named: old(self)@.named.insert(s@, g@), ..old(self)@ }),
    {
        let key = s.to_owned();
        let ghost es = named_entries(self.other_map@);
        match self.find_named(&key) {
            Some(i) => {
                proof {
                    lemma_assoc_update(es, i as int, g@);
                }
                self.other_map.set(i, (key, g));
                proof {
                    assert(named_entries(self.other_map@) =~= es.update(i as int, (es[i as int].0, g@)));
                }
            },
            None => {
                proof {
                    assert forall|k: int| 0 <= k < es.len() implies (#[trigger] es[k]).0 != s@ by {
                        assert(es[k].0 == old(self).other_map@[k].0@);
                    }
                    lemma_assoc_push(es, s@, g@);
                }
                self.other_map.push((key, g));
                proof {
                    assert(named_entries(self.other_map@) =~= es.push((s@, g@)));
                }
            },
        }
    }

    /// Registers each name/glyph pair of `gls` in order; a later pair wins
    /// over an earlier one, and over an existing entry, of the same name.
    pub fn add_other_glyphs(&mut self, gls: Vec<(&str, Vec<Ev>)>)
        requires
            old(self).wf(),
        ensures
            final(self).wf(),
            final(self)@ == (AlphabetView {
                named: old(self)@.named.union_prefer_right(assoc(pairs_view(gls@))),
                ..old(self)@
            }),
    {
        let ghost all = pairs_view(gls@);
        let mut rest = gls;
        let n = rest.len();
        let mut i: usize = 0;
        proof {
            assert(all.take(0) =~= Seq::<(Seq<char>, Seq<Ev>)>::empty());
            assert(self@.named.union_prefer_right(Map::empty()) =~= self@.named);
        }
        while i < n
            invariant
                self.wf(),
                n == all.len(),
                i <= n,
                rest@.len() == n - i,
                pairs_view(rest@) == all.skip(i as int),
                self@ == (AlphabetView {
                    named: old(self)@.named.union_prefer_right(assoc(all.take(i as int))),
                    ..old(self)@
                }),
            decreases n - i,
        {
            let ghost before = rest@;
            let (s, g) = rest.remove(0);
            proof {
                assert(rest@ =~= before.subrange(1, before.len() as int));
                assert forall|k: int| 0 <= k < rest@.len() implies #[trigger] pairs_view(rest@)[k]
                    == all.skip(i + 1)[k] by {
                    assert(pairs_view(before)[k + 1] == all.skip(i as int)[k + 1]);
                }
                assert(pairs_view(rest@) =~= all.skip(i + 1));
                assert(all[i as int] == (s@, g@)) by {
                    assert(pairs_view(before)[0] == all.skip(i as int)[0]);
                }
                assert(all.take(i + 1).drop_last() =~= all.take(i as int));
            }
            self.add_other_glyph(s, g);
            proof {
                assert(self@.named =~= old(self)@.named.union_prefer_right(assoc(all.take(i + 1))));
            }
            i = i + 1;
        }
        proof {
            assert(all.take(n as int) =~= all);
        }
    }
}

/// The name of motor `i`: its index in decimal.
pub open spec fn motor_name(i: int) -> Seq<char> {
    seq![
        "0"@, "1"@, "2"@, "3"@, "4"@, "5"@, "6"@, "7"@, "8"@, "9"@, "10"@, "11"@,
    ][i]
}

/// One glyph per motor, named by its index, that plays that motor alone.
pub open spec fn motor_entries(s: u16) -> Seq<(Seq<char>, Seq<Ev>)> {
    Seq::new(12, |i: int| (motor_name(i), equal_spaced(seq![i as u8], s)))
}

/// Straight swipes along the columns, rows and diagonals, and the two
/// round trips of the border, 30 ms apart.
pub open spec fn swipe_entries() -> Seq<(Seq<char>, Seq<Ev>)> {
    seq![
        ("col0_up"@, equal_spaced(seq![8, 4, 0], 30)),
        ("col1_up"@, equal_spaced(seq![9, 5, 1], 30)),
        ("col2_up"@, equal_spaced(seq![10, 6, 2], 30)),
        ("col3_up"@, equal_spaced(seq![11, 7, 3], 30)),
        ("col0_down"@, equal_spaced(seq![0, 4, 8], 30)),
        ("col1_down"@, equal_spaced(seq![1, 5, 9], 30)),
        ("col2_down"@, equal_spaced(seq![2, 6, 10], 30)),
        ("col3_down"@, equal_spaced(seq![3, 7, 11], 30)),
        ("row0_right"@, equal_spaced(seq![0, 1, 2, 3], 30)),
        ("row1_right"@, equal_spaced(seq![4, 5, 6, 7], 30)),
        ("row2_right"@, equal_spaced(seq![8, 9, 10, 11], 30)),
        ("row0_left"@, equal_spaced(seq![3, 2, 1, 0], 30)),
        ("row1_left"@, equal_spaced(seq![7, 6, 5, 4], 30)),
        ("row2_left"@, equal_spaced(seq![11, 10, 9, 8], 30)),
        ("clockwise"@, equal_spaced(seq![0, 1, 2, 3, 7, 11, 10, 9, 8, 4, 0], 30)),
        ("anticlockwise"@, equal_spaced(seq![0, 4, 8, 9, 10, 11, 7, 3, 2, 1, 0], 30)),
        ("slash"@, equal_spaced(seq![3, 6, 5, 8], 30)),
        ("rev_slash"@, equal_spaced(seq![8, 5, 6, 3], 30)),
        ("backslash"@, equal_spaced(seq![0, 5, 6, 11], 30)),
        ("rev_backslash"@, equal_spaced(seq![11, 6, 5, 0], 30)),
    ]
}

/// Letters drawn by stitching three swipes.
pub open spec fn compound_entries() -> Seq<(Seq<char>, Seq<Ev>)> {
    let col0_up = equal_spaced(seq![8, 4, 0], 30);
    let col1_down = equal_spaced(seq![1, 5, 9], 30);
    let col2_up = equal_spaced(seq![10, 6, 2], 30);
    let row0_right = equal_spaced(seq![0, 1, 2, 3], 30);
    let row1_left = equal_spaced(seq![7, 6, 5, 4], 30);
    let row2_right = equal_spaced(seq![8, 9, 10, 11], 30);
    let row0_left = equal_spaced(seq![3, 2, 1, 0], 30);
    let row1_right = equal_spaced(seq![4, 5, 6, 7], 30);
    let row2_left = equal_spaced(seq![11, 10, 9, 8], 30);
    seq![
        ("N"@, stitched(seq![col0_up, col1_down, col2_up])),
        ("flipped_N"@, stitched(seq![col2_up, col1_down, col0_up])),
        ("zig"@, stitched(seq![row0_right, row1_left, row2_right])),
        ("zag"@, stitched(seq![row0_left, row1_right, row2_left])),
    ]
}

/// The alphabet of the discrimination experiment: named motors, swipes and
/// compound letters; characters all give the unknown glyph.
pub open spec fn distinguish_alphabet() -> AlphabetView {
    AlphabetView {
        named: default_alphabet().named.union_prefer_right(assoc(motor_entries(30))).union_prefer_right(
            assoc(swipe_entries()),
        ).union_prefer_right(assoc(compound_entries())),
        ..default_alphabet()
    }
}

/// The pairs named by `motor_entries(space_ms)`.
fn motor_glyphs(space_ms: u16) -> (r: Vec<(&'static str, Vec<Ev>)>)
    ensures
        pairs_view(r@) == motor_entries(space_ms),
{
    let names: [&str; 12] = ["0", "1", "2", "3", "4", "5", "6", "7", "8", "9", "10", "11"];
    let mut out: Vec<(&'static str, Vec<Ev>)> = Vec::new();
    let mut i: usize = 0;
    while i < 12
        invariant
            i <= 12,
            names@ == seq!["0", "1", "2", "3", "4", "5", "6", "7", "8", "9", "10", "11"],
            pairs_view(out@) == motor_entries(space_ms).take(i as int),
        decreases 12 - i,
    {
        let trigger: [u8; 1] = [i as u8];
        proof {
            assert(trigger@ =~= seq![i as u8]);
        }
        let g = equal_spaced_evs(&trigger, space_ms);
        let ghost prev = out@;
        out.push((names[i], g));
        proof {
            assert(names@[i as int]@ == motor_name(i as int));
            assert(out@ == prev.push((names@[i as int], g)));
            assert(pairs_view(out@) =~= pairs_view(prev).push((motor_name(i as int), g@)));
            assert(pairs_view(out@) =~= motor_entries(space_ms).take(i + 1));
        }
        i = i + 1;
    }
    out
}

/// Stitches three well-formed glyphs.
fn stitch3(a: &[Ev], b: &[Ev], c: &[Ev]) -> (r: Vec<Ev>)
    requires
        is_glyph(a@),
        is_glyph(b@),
        is_glyph(c@),
        duration(a@) + duration(b@) + duration(c@) <= u16::MAX,
    ensures
        r@ == stitched(seq![a@, b@, c@]),
{
    let parts = [a, b, c];
    let ps: &[&[Ev]] = &parts;
    proof {
        let gs = seq![a@, b@, c@];
        assert(glyph_views(ps@) =~= gs);
        assert(gs.drop_last() =~= seq![a@, b@]);
        assert(seq![a@, b@].drop_last() =~= seq![a@]);
        assert(seq![a@].drop_last() =~= Seq::<Seq<Ev>>::empty());
        assert(total_duration(gs) == duration(a@) + duration(b@) + duration(c@)) by {
            reveal_with_fuel(total_duration, 4);
        }
        assert forall|i: int| 0 <= i < gs.len() implies is_glyph(#[trigger] gs[i]) by {}
        lemma_stitch_glyphs_fit(gs);
    }
    stitch_evs(ps)
}

/// Builds the discrimination alphabet.
fn distinguish() -> (r: Alphabet)
    ensures
        r.wf(),
        r@ == distinguish_alphabet(),
{
    let mut a = Alphabet::default();
    a.add_other_glyphs(motor_glyphs(30));
    let col0_up = equal_spaced_evs(&[8, 4, 0], 30);
    let col1_down = equal_spaced_evs(&[1, 5, 9], 30);
    let col2_up = equal_spaced_evs(&[10, 6, 2], 30);
    let row0_right = equal_spaced_evs(&[0, 1, 2, 3], 30);
    let row1_left = equal_spaced_evs(&[7, 6, 5, 4], 30);
    let row2_right = equal_spaced_evs(&[8, 9, 10, 11], 30);
    let row0_left = equal_spaced_evs(&[3, 2, 1, 0], 30);
    let row1_right = equal_spaced_evs(&[4, 5, 6, 7], 30);
    let row2_left = equal_spaced_evs(&[11, 10, 9, 8], 30);
    let swipes: Vec<(&str, Vec<Ev>)> = vec![
        ("col0_up", col0_up.clone()),
        ("col1_up", equal_spaced_evs(&[9, 5, 1], 30)),
        ("col2_up", col2_up.clone()),
        ("col3_up", equal_spaced_evs(&[11, 7, 3], 30)),
        ("col0_down", equal_spaced_evs(&[0, 4, 8], 30)),
        ("col1_down", col1_down.clone()),
        ("col2_down", equal_spaced_evs(&[2, 6, 10], 30)),
        ("col3_down", equal_spaced_evs(&[3, 7, 11], 30)),
        ("row0_right", row0_right.clone()),
        ("row1_right", row1_right.clone()),
        ("row2_right", row2_right.clone()),
        ("row0_left", row0_left.clone()),
        ("row1_left", row1_left.clone()),
        ("row2_left", row2_left.clone()),
        ("clockwise", equal_spaced_evs(&[0, 1, 2, 3, 7, 11, 10, 9, 8, 4, 0], 30)),
        ("anticlockwise", equal_spaced_evs(&[0, 4, 8, 9, 10, 11, 7, 3, 2, 1, 0], 30)),
        ("slash", equal_spaced_evs(&[3, 6, 5, 8], 30)),
        ("rev_slash", equal_spaced_evs(&[8, 5, 6, 3], 30)),
        ("backslash", equal_spaced_evs(&[0, 5, 6, 11], 30)),
        ("rev_backslash", equal_spaced_evs(&[11, 6, 5, 0], 30)),
    ];
    proof {
        assert(pairs_view(swipes@) =~= swipe_entries());
        lemma_equal_spaced_glyph(seq![8, 4, 0], 30);
        lemma_equal_spaced_glyph(seq![1, 5, 9], 30);
        lemma_equal_spaced_glyph(seq![10, 6, 2], 30);
        lemma_equal_spaced_glyph(seq![0, 1, 2, 3], 30);
        lemma_equal_spaced_glyph(seq![7, 6, 5, 4], 30);
        lemma_equal_spaced_glyph(seq![8, 9, 10, 11], 30);
        lemma_equal_spaced_glyph(seq![3, 2, 1, 0], 30);
        lemma_equal_spaced_glyph(seq![4, 5, 6, 7], 30);
        lemma_equal_spaced_glyph(seq![11, 10, 9, 8], 30);
    }
    a.add_other_glyphs(swipes);
    let compounds: Vec<(&str, Vec<Ev>)> = vec![
        ("N", stitch3(&col0_up, &col1_down, &col2_up)),
        ("flipped_N", stitch3(&col2_up, &col1_down, &col0_up)),
        ("zig", stitch3(&row0_right, &row1_left, &row2_right)),
        ("zag", stitch3(&row0_left, &row1_right, &row2_left)),
    ];
    proof {
        assert(pairs_view(compounds@) =~= compound_entries());
    }
    a.add_other_glyphs(compounds);
    a
}

/// The letters `a` to `z` as single-stroke paths over the grid, 150 ms apart.
pub open spec fn letter_glyphs() -> Seq<Seq<Ev>> {
    seq![
        equal_spaced(seq![8, 4, 1, 6, 11], 150),
        equal_spaced(seq![0, 4, 8, 4, 5, 6, 7, 11, 10, 9, 8], 150),
        equal_spaced(seq![3, 2, 1, 0, 4, 8, 9, 10, 11], 150),
        equal_spaced(seq![8, 4, 0, 1, 2, 3, 7, 11, 10, 9, 8], 150),
        equal_spaced(seq![4, 5, 6, 7, 3, 2, 1, 0, 4, 8, 9, 10, 11], 150),
        equal_spaced(seq![3, 2, 1, 0, 4, 8], 150),
        equal_spaced(seq![1, 0, 4, 8, 9, 10, 11, 7, 6], 150),
        equal_spaced(seq![0, 4, 8, 4, 5, 6, 7, 11], 150),
        equal_spaced(seq![0, 4, 8], 150),
        equal_spaced(seq![3, 7, 11, 10, 9, 8], 150),
        equal_spaced(seq![3, 6, 9, 8, 4, 0, 1, 6, 11], 150),
        equal_spaced(seq![0, 4, 8, 9, 10, 11], 150),
        equal_spaced(seq![8, 4, 0, 1, 5, 6, 2, 3, 7, 11], 150),
        equal_spaced(seq![8, 4, 0, 1, 5, 10, 11, 7, 3], 150),
        equal_spaced(seq![1, 0, 4, 8, 9, 10, 11, 7, 3, 2], 150),
        equal_spaced(seq![8, 4, 0, 1, 2, 3, 7, 6, 5, 4], 150),
        equal_spaced(seq![3, 2, 1, 0, 4, 5, 6, 7, 3, 7, 11], 150),
        equal_spaced(seq![8, 4, 0, 1, 2, 3, 7, 6, 5, 4, 5, 10], 150),
        equal_spaced(seq![3, 2, 1, 0, 4, 5, 6, 7, 11, 10, 9, 8], 150),
        equal_spaced(seq![0, 1, 2, 3, 7, 11], 150),
        equal_spaced(seq![0, 4, 8, 9, 10, 11, 7, 3], 150),
        equal_spaced(seq![0, 4, 9, 6, 3], 150),
        equal_spaced(seq![0, 4, 8, 9, 5, 6, 10, 11, 7, 3], 150),
        equal_spaced(seq![0, 5, 10, 6, 2, 5, 8], 150),
        equal_spaced(seq![0, 4, 5, 6, 7, 3, 7, 11, 10, 9, 6, 3], 150),
        equal_spaced(seq![0, 1, 2, 3, 7, 6, 5, 4, 8, 9, 10, 11], 150),
    ]
}

/// Slot of `'a'` in the dense table.
pub const LOWERCASE_SLOT: usize = 65;

/// The graffiti alphabet: lowercase letters as paths, named motors 100 ms
/// long; every other printable character gives the unknown glyph.
pub open spec fn roud_graff_alphabet() -> AlphabetView {
    AlphabetView {
        ascii: Seq::new(LOWERCASE_SLOT as nat, |i: int| unknown_glyph()) + letter_glyphs() + Seq::new(
            4,
            |i: int| unknown_glyph(),
        ),
        named: default_alphabet().named.union_prefer_right(assoc(motor_entries(100))),
        ..default_alphabet()
    }
}

/// Builds the graffiti alphabet.
fn roud_graff() -> (r: Alphabet)
    ensures
        r.wf(),
        r@ == roud_graff_alphabet(),
{
    let mut a = Alphabet::default();
    a.add_other_glyphs(motor_glyphs(100));
    let mut block: Vec<Vec<Ev>> = Vec::new();
    let mut i: usize = 0;
    while i < LOWERCASE_SLOT
        invariant
            i <= LOWERCASE_SLOT,
            block@.len() == i,
            forall|k: int| 0 <= k < i ==> (#[trigger] block@[k])@ == unknown_glyph(),
        decreases LOWERCASE_SLOT - i,
    {
        block.push(unknown_glyph_evs());
        i = i + 1;
    }
    let mut letters: Vec<Vec<Ev>> = vec![
        equal_spaced_evs(&[8, 4, 1, 6, 11], 150),
        equal_spaced_evs(&[0, 4, 8, 4, 5, 6, 7, 11, 10, 9, 8], 150),
        equal_spaced_evs(&[3, 2, 1, 0, 4, 8, 9, 10, 11], 150),
        equal_spaced_evs(&[8, 4, 0, 1, 2, 3, 7, 11, 10, 9, 8], 150),
        equal_spaced_evs(&[4, 5, 6, 7, 3, 2, 1, 0, 4, 8, 9, 10, 11], 150),
        equal_spaced_evs(&[3, 2, 1, 0, 4, 8], 150),
        equal_spaced_evs(&[1, 0, 4, 8, 9, 10, 11, 7, 6], 150),
        equal_spaced_evs(&[0, 4, 8, 4, 5, 6, 7, 11], 150),
        equal_spaced_evs(&[0, 4, 8], 150),
        equal_spaced_evs(&[3, 7, 11, 10, 9, 8], 150),
        equal_spaced_evs(&[3, 6, 9, 8, 4, 0, 1, 6, 11], 150),
        equal_spaced_evs(&[0, 4, 8, 9, 10, 11], 150),
        equal_spaced_evs(&[8, 4, 0, 1, 5, 6, 2, 3, 7, 11], 150),
        equal_spaced_evs(&[8, 4, 0, 1, 5, 10, 11, 7, 3], 150),
        equal_spaced_evs(&[1, 0, 4, 8, 9, 10, 11, 7, 3, 2], 150),
        equal_spaced_evs(&[8, 4, 0, 1, 2, 3, 7, 6, 5, 4], 150),
        equal_spaced_evs(&[3, 2, 1, 0, 4, 5, 6, 7, 3, 7, 11], 150),
        equal_spaced_evs(&[8, 4, 0, 1, 2, 3, 7, 6, 5, 4, 5, 10], 150),
        equal_spaced_evs(&[3, 2, 1, 0, 4, 5, 6, 7, 11, 10, 9, 8], 150),
        equal_spaced_evs(&[0, 1, 2, 3, 7, 11], 150),
        equal_spaced_evs(&[0, 4, 8, 9, 10, 11, 7, 3], 150),
        equal_spaced_evs(&[0, 4, 9, 6, 3], 150),
        equal_spaced_evs(&[0, 4, 8, 9, 5, 6, 10, 11, 7, 3], 150),
        equal_spaced_evs(&[0, 5, 10, 6, 2, 5, 8], 150),
        equal_spaced_evs(&[0, 4, 5, 6, 7, 3, 7, 11, 10, 9, 6, 3], 150),
        equal_spaced_evs(&[0, 1, 2, 3, 7, 6, 5, 4, 8, 9, 10, 11], 150),
    ];
    let ghost head = block@;
    let ghost drawn = letters@;
    block.append(&mut letters);
    let mut j: usize = 0;
    while j < 4
        invariant
            j <= 4,
            block@.len() == LOWERCASE_SLOT + 26 + j,
            block@.subrange(0, LOWERCASE_SLOT + 26) == head + drawn,
            forall|k: int|
                LOWERCASE_SLOT + 26 <= k < block@.len() ==> (#[trigger] block@[k])@ == unknown_glyph(),
        decreases 4 - j,
    {
        let ghost prev = block@;
        block.push(unknown_glyph_evs());
        proof {
            assert(block@.subrange(0, LOWERCASE_SLOT + 26) =~= prev.subrange(0, LOWERCASE_SLOT + 26));
        }
        j = j + 1;
    }
    proof {
        let want = roud_graff_alphabet().ascii;
        assert(drawn.map_values(|g: Vec<Ev>| g@) =~= letter_glyphs());
        assert forall|k: int| 0 <= k < block@.len() implies (#[trigger] block@[k])@ == want[k] by {
            if k < LOWERCASE_SLOT + 26 {
                assert(block@[k] == block@.subrange(0, LOWERCASE_SLOT + 26)[k]);
                if k >= LOWERCASE_SLOT {
                    assert(drawn[k - LOWERCASE_SLOT]@ == letter_glyphs()[k - LOWERCASE_SLOT]);
                }
            }
        }
        assert(block@.map_values(|g: Vec<Ev>| g@) =~= want);
    }
    a.ascii_block = block;
    a
}

/// The registered alphabets, by name.
pub struct Alphabets {
    entries: Vec<(String, Alphabet)>,
}

/// The entries of a registry, as values.
pub open spec fn alphabet_entries(es: Seq<(String, Alphabet)>) -> Seq<(Seq<char>, AlphabetView)> {
    es.map_values(|e: (String, Alphabet)| (e.0@, e.1@))
}

impl View for Alphabets {
    type V = Map<Seq<char>, AlphabetView>;

    closed spec fn view(&self) -> Map<Seq<char>, AlphabetView> {
        assoc(alphabet_entries(self.entries@))
    }
}

impl Alphabets {
    /// One entry per name, each a consistent alphabet.
    pub closed spec fn wf(&self) -> bool {
        &&& keys_unique(alphabet_entries(self.entries@))
        &&& forall|i: int| 0 <= i < self.entries@.len() ==> (#[trigger] self.entries@[i]).1.wf()
    }

    /// The alphabet registered as `name`, if any.
    pub fn get(&self, name: &str) -> (r: Option<&Alphabet>)
        requires
            self.wf(),
        ensures
            r.is_some() == self@.contains_key(name@),
            r matches Some(a) ==> a.wf() && a@ == self@[name@],
    {
        let key = name.to_owned();
        let ghost es = alphabet_entries(self.entries@);
        let mut i: usize = 0;
        while i < self.entries.len()
            invariant
                self.wf(),
                key@ == name@,
                es == alphabet_entries(self.entries@),
                i <= self.entries@.len(),
                forall|k: int| 0 <= k < i ==> (#[trigger] self.entries@[k]).0@ != key@,
            decreases self.entries@.len() - i,
        {
            if self.entries[i].0 == key {
                proof {
                    assert(es[i as int] == (name@, self.entries@[i as int].1@));
                    lemma_assoc_has(es, i as int);
                }
                return Some(&self.entries[i].1);
            }
            i = i + 1;
        }
        proof {
            assert forall|k: int| 0 <= k < es.len() implies (#[trigger] es[k]).0 != name@ by {
                assert(es[k].0 == self.entries@[k].0@);
            }
            lemma_assoc_lacks(es, name@);
        }
        None
    }
}

/// Builds every alphabet once, each under its own name.
pub fn init_alphabets() -> (r: Alphabets)
    ensures
        r.wf(),
        r@ == map!["distinguish"@ => distinguish_alphabet(), "roud_graff"@ => roud_graff_alphabet()],
{
    let mut entries: Vec<(String, Alphabet)> = Vec::new();
    entries.push(("distinguish".to_owned(), distinguish()));
    entries.push(("roud_graff".to_owned(), roud_graff()));
    let r = Alphabets { entries };
    proof {
        reveal_strlit("distinguish");
        reveal_strlit("roud_graff");
        let es = alphabet_entries(r.entries@);
        assert(es.drop_last().drop_last() =~= Seq::<(Seq<char>, AlphabetView)>::empty());
        assert(es[0].0 != es[1].0) by {
            assert(es[0].0.len() != es[1].0.len());
        }
        assert(r@ =~= map!["distinguish"@ => distinguish_alphabet(), "roud_graff"@ => roud_graff_alphabet()]) by {
            reveal_with_fuel(assoc, 3);
        }
    }
    r
}

/// The positions in `g`, in order, of the events tagged `tag`.
pub open spec fn positions_of(g: Seq<Ev>, tag: int) -> Seq<usize>
    decreases g.len(),
{
    if g.len() == 0 {
        Seq::empty()
    } else if g.last().ev_type == tag {
        positions_of(g.drop_last(), tag).push((g.len() - 1) as usize)
    } else {
        positions_of(g.drop_last(), tag)
    }
}

/// For each tag from motor 0 to `END_GLYPH`, the positions in `glyph` of the
/// events with that tag, in playing order: what a grid drawing of the glyph
/// shows on each motor.
pub fn motor_occurrences(glyph: &[Ev]) -> (r: Vec<Vec<usize>>)
    ensures
        r@.len() == END_GLYPH + 1,
        forall|t: int| 0 <= t <= END_GLYPH ==> (#[trigger] r@[t])@ == positions_of(glyph@, t),
{
    let mut places: Vec<Vec<usize>> = Vec::new();
    let mut t: u8 = 0;
    while t <= END_GLYPH
        invariant
            t <= END_GLYPH + 1,
            places@.len() == t,
            forall|k: int| 0 <= k < t ==> (#[trigger] places@[k])@ == positions_of(glyph@, k),
        decreases END_GLYPH + 1 - t,
    {
        let mut found: Vec<usize> = Vec::new();
        let mut idx: usize = 0;
        while idx < glyph.len()
            invariant
                idx <= glyph@.len(),
                found@ == positions_of(glyph@.take(idx as int), t as int),
            decreases glyph@.len() - idx,
        {
            proof {
                assert(glyph@.take(idx + 1).drop_last() =~= glyph@.take(idx as int));
            }
            if glyph[idx].ev_type == t {
                found.push(idx);
            }
            idx = idx + 1;
        }
        proof {
            assert(glyph@.take(glyph@.len() as int) =~= glyph@);
        }
        places.push(found);
        t = t + 1;
    }
    places
}

/// In an alphabet that holds only well-formed glyphs, every character and
/// every name resolves to a well-formed glyph.
pub proof fn lemma_lookups_are_glyphs(a: AlphabetView, c: char, s: Seq<char>)
    requires
        a.wf(),
        a.holds_glyphs(),
    ensures
        is_glyph(a.glyph(c)),
        is_glyph(a.named_glyph(s)),
{
    if is_printable(c) {
        assert(is_glyph(a.ascii[printable_slot(c)]));
    }
}

proof fn lemma_assoc_glyphs<K>(es: Seq<(K, Seq<Ev>)>)
    requires
        forall|i: int| 0 <= i < es.len() ==> is_glyph((#[trigger] es[i]).1),
    ensures
        forall|k: K| #[trigger] assoc(es).contains_key(k) ==> is_glyph(assoc(es)[k]),
    decreases es.len(),
{
    if es.len() > 0 {
        let init = es.drop_last();
        assert forall|i: int| 0 <= i < init.len() implies is_glyph((#[trigger] init[i]).1) by {
            assert(init[i] == es[i]);
        }
        let last = es[es.len() - 1];
        assert(is_glyph(last.1));
        lemma_assoc_glyphs(init);
        assert forall|k: K| #[trigger] assoc(es).contains_key(k) implies is_glyph(assoc(es)[k]) by {
            if k != last.0 {
                assert(assoc(init).contains_key(k));
            }
        }
    }
}

proof fn lemma_unknown_is_glyph()
    ensures
        is_glyph(unknown_glyph()),
{
    let g = unknown_glyph();
    assert forall|i: int, j: int| 0 <= i <= j < g.len() implies #[trigger] g[i].ms_time
        <= #[trigger] g[j].ms_time by {}
}

proof fn lemma_motor_entries_glyphs(sp: u16)
    ensures
        forall|k: Seq<char>| #[trigger] assoc(motor_entries(sp)).contains_key(k) ==> is_glyph(
            assoc(motor_entries(sp))[k],
        ),
{
    let es = motor_entries(sp);
    assert forall|i: int| 0 <= i < es.len() implies is_glyph((#[trigger] es[i]).1) by {
        assert(seq![i as u8].len() == 1);
        lemma_equal_spaced_glyph(seq![i as u8], sp);
    }
    lemma_assoc_glyphs(es);
}

proof fn lemma_swipe_glyphs()
    ensures
        forall|k: Seq<char>| #[trigger] assoc(swipe_entries()).contains_key(k) ==> is_glyph(
            assoc(swipe_entries())[k],
        ),
{
    let sw = swipe_entries();
    lemma_equal_spaced_glyph(seq![8, 4, 0], 30);
    lemma_equal_spaced_glyph(seq![9, 5, 1], 30);
    lemma_equal_spaced_glyph(seq![10, 6, 2], 30);
    lemma_equal_spaced_glyph(seq![11, 7, 3], 30);
    lemma_equal_spaced_glyph(seq![0, 4, 8], 30);
    lemma_equal_spaced_glyph(seq![1, 5, 9], 30);
    lemma_equal_spaced_glyph(seq![2, 6, 10], 30);
    lemma_equal_spaced_glyph(seq![3, 7, 11], 30);
    lemma_equal_spaced_glyph(seq![0, 1, 2, 3], 30);
    lemma_equal_spaced_glyph(seq![4, 5, 6, 7], 30);
    lemma_equal_spaced_glyph(seq![8, 9, 10, 11], 30);
    lemma_equal_spaced_glyph(seq![3, 2, 1, 0], 30);
    lemma_equal_spaced_glyph(seq![7, 6, 5, 4], 30);
    lemma_equal_spaced_glyph(seq![11, 10, 9, 8], 30);
    lemma_equal_spaced_glyph(seq![0, 1, 2, 3, 7, 11, 10, 9, 8, 4, 0], 30);
    lemma_equal_spaced_glyph(seq![0, 4, 8, 9, 10, 11, 7, 3, 2, 1, 0], 30);
    lemma_equal_spaced_glyph(seq![3, 6, 5, 8], 30);
    lemma_equal_spaced_glyph(seq![8, 5, 6, 3], 30);
    lemma_equal_spaced_glyph(seq![0, 5, 6, 11], 30);
    lemma_equal_spaced_glyph(seq![11, 6, 5, 0], 30);
    assert forall|i: int| 0 <= i < sw.len() implies is_glyph((#[trigger] sw[i]).1) by {}
    lemma_assoc_glyphs(sw);

}

proof fn lemma_compound_glyphs()
    ensures
        forall|k: Seq<char>| #[trigger] assoc(compound_entries()).contains_key(k) ==> is_glyph(
            assoc(compound_entries())[k],
        ),
{
    let cp = compound_entries();
    let col0_up = equal_spaced(seq![8, 4, 0], 30);
    let col1_down = equal_spaced(seq![1, 5, 9], 30);
    let col2_up = equal_spaced(seq![10, 6, 2], 30);
    let row0_right = equal_spaced(seq![0, 1, 2, 3], 30);
    let row1_left = equal_spaced(seq![7, 6, 5, 4], 30);
    let row2_right = equal_spaced(seq![8, 9, 10, 11], 30);
    let row0_left = equal_spaced(seq![3, 2, 1, 0], 30);
    let row1_right = equal_spaced(seq![4, 5, 6, 7], 30);
    let row2_left = equal_spaced(seq![11, 10, 9, 8], 30);
    lemma_three_stitched(col0_up, col1_down, col2_up);
    lemma_three_stitched(col2_up, col1_down, col0_up);
    lemma_three_stitched(row0_right, row1_left, row2_right);
    lemma_three_stitched(row0_left, row1_right, row2_left);
    assert forall|i: int| 0 <= i < cp.len() implies is_glyph((#[trigger] cp[i]).1) by {}
    lemma_assoc_glyphs(cp);
}

proof fn lemma_letter_glyphs()
    ensures
        forall|i: int| 0 <= i < letter_glyphs().len() ==> is_glyph(#[trigger] letter_glyphs()[i]),
{
    let letters = letter_glyphs();
    lemma_equal_spaced_glyph(seq![8, 4, 1, 6, 11], 150);
    lemma_equal_spaced_glyph(seq![0, 4, 8, 4, 5, 6, 7, 11, 10, 9, 8], 150);
    lemma_equal_spaced_glyph(seq![3, 2, 1, 0, 4, 8, 9, 10, 11], 150);
    lemma_equal_spaced_glyph(seq![8, 4, 0, 1, 2, 3, 7, 11, 10, 9, 8], 150);
    lemma_equal_spaced_glyph(seq![4, 5, 6, 7, 3, 2, 1, 0, 4, 8, 9, 10, 11], 150);
    lemma_equal_spaced_glyph(seq![3, 2, 1, 0, 4, 8], 150);
    lemma_equal_spaced_glyph(seq![1, 0, 4, 8, 9, 10, 11, 7, 6], 150);
    lemma_equal_spaced_glyph(seq![0, 4, 8, 4, 5, 6, 7, 11], 150);
    lemma_equal_spaced_glyph(seq![0, 4, 8], 150);
    lemma_equal_spaced_glyph(seq![3, 7, 11, 10, 9, 8], 150);
    lemma_equal_spaced_glyph(seq![3, 6, 9, 8, 4, 0, 1, 6, 11], 150);
    lemma_equal_spaced_glyph(seq![0, 4, 8, 9, 10, 11], 150);
    lemma_equal_spaced_glyph(seq![8, 4, 0, 1, 5, 6, 2, 3, 7, 11], 150);
    lemma_equal_spaced_glyph(seq![8, 4, 0, 1, 5, 10, 11, 7, 3], 150);
    lemma_equal_spaced_glyph(seq![1, 0, 4, 8, 9, 10, 11, 7, 3, 2], 150);
    lemma_equal_spaced_glyph(seq![8, 4, 0, 1, 2, 3, 7, 6, 5, 4], 150);
    lemma_equal_spaced_glyph(seq![3, 2, 1, 0, 4, 5, 6, 7, 3, 7, 11], 150);
    lemma_equal_spaced_glyph(seq![8, 4, 0, 1, 2, 3, 7, 6, 5, 4, 5, 10], 150);
    lemma_equal_spaced_glyph(seq![3, 2, 1, 0, 4, 5, 6, 7, 11, 10, 9, 8], 150);
    lemma_equal_spaced_glyph(seq![0, 1, 2, 3, 7, 11], 150);
    lemma_equal_spaced_glyph(seq![0, 4, 8, 9, 10, 11, 7, 3], 150);
    lemma_equal_spaced_glyph(seq![0, 4, 9, 6, 3], 150);
    lemma_equal_spaced_glyph(seq![0, 4, 8, 9, 5, 6, 10, 11, 7, 3], 150);
    lemma_equal_spaced_glyph(seq![0, 5, 10, 6, 2, 5, 8], 150);
    lemma_equal_spaced_glyph(seq![0, 4, 5, 6, 7, 3, 7, 11, 10, 9, 6, 3], 150);
    lemma_equal_spaced_glyph(seq![0, 1, 2, 3, 7, 6, 5, 4, 8, 9, 10, 11], 150);
    assert forall|i: int| 0 <= i < letters.len() implies is_glyph(#[trigger] letters[i]) by {}
}

/// Both built alphabets hold only well-formed glyphs, so every lookup in
/// them gives a glyph that ends with its one sentinel.
pub proof fn lemma_built_alphabets_hold_glyphs()
    ensures
        distinguish_alphabet().holds_glyphs(),
        roud_graff_alphabet().holds_glyphs(),
{
    lemma_unknown_is_glyph();
    lemma_motor_entries_glyphs(30);
    lemma_motor_entries_glyphs(100);
    lemma_swipe_glyphs();
    lemma_compound_glyphs();
    lemma_letter_glyphs();
    let d = default_alphabet();
    assert(d.holds_glyphs());
    assert(distinguish_alphabet().holds_glyphs());
    let letters = letter_glyphs();
    let ascii = roud_graff_alphabet().ascii;
    assert forall|i: int| 0 <= i < ascii.len() implies is_glyph(#[trigger] ascii[i]) by {
        if LOWERCASE_SLOT <= i < LOWERCASE_SLOT + 26 {
            assert(ascii[i] == letters[i - LOWERCASE_SLOT]);
        }
    }
    assert(roud_graff_alphabet().holds_glyphs());
}

proof fn lemma_three_stitched(a: Seq<Ev>, b: Seq<Ev>, c: Seq<Ev>)
    requires
        is_glyph(a),
        is_glyph(b),
        is_glyph(c),
        duration(a) + duration(b) + duration(c) <= u16::MAX,
    ensures
        is_glyph(stitched(seq![a, b, c])),
{
    let gs = seq![a, b, c];
    assert(gs.drop_last() =~= seq![a, b]);
    assert(seq![a, b].drop_last() =~= seq![a]);
    assert(seq![a].drop_last() =~= Seq::<Seq<Ev>>::empty());
    assert(total_duration(gs) == duration(a) + duration(b) + duration(c)) by {
        reveal_with_fuel(total_duration, 4);
    }
    assert forall|i: int| 0 <= i < gs.len() implies is_glyph(#[trigger] gs[i]) by {}
    lemma_stitched_is_glyph(gs);
}

} // verus!
