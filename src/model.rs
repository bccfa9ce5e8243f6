//! The mathematical model of a pattern: what its fragments stand for, how
//! many combinations they have, which one is current, and how the odometer
//! steps through them.
use vstd::prelude::*;

verus! {

/// A fragment with its text seen as characters.
pub enum FragView {
    Chunk(Seq<char>),
    Switch(SwitchView),
}

/// A switch seen as sequences of fragment views and its two cursors.
pub struct SwitchView {
    pub options: Seq<Seq<FragView>>,
    pub cursor: nat,
    pub write_cursor: nat,
}

// ---------------------------------------------------------------------------
// Counting

/// The number of combinations a fragment stands for. A switch without
/// options stands for the empty string alone.
pub open spec fn count_frag(f: FragView) -> nat
    decreases f,
{
    match f {
        FragView::Chunk(_) => 1,
        FragView::Switch(s) => count_switch(s),
    }
}

/// The combinations of a switch: those of all its options together, or one
/// (the empty string) where it has no option.
pub open spec fn count_switch(s: SwitchView) -> nat
    decreases s,
{
    if s.options.len() == 0 {
        1
    } else {
        count_options(s.options)
    }
}

/// The sum of the combination counts of the options `o`.
pub open spec fn count_options(o: Seq<Seq<FragView>>) -> nat
    decreases o,
{
    if o.len() == 0 {
        0
    } else {
        count_options(o.subrange(0, o.len() - 1)) + count_seq(o[o.len() - 1])
    }
}

/// The product of the combination counts of the fragments `fs`.
pub open spec fn count_seq(fs: Seq<FragView>) -> nat
    decreases fs,
{
    if fs.len() == 0 {
        1
    } else {
        count_frag(fs[0]) * count_seq(fs.subrange(1, fs.len() as int))
    }
}

// ---------------------------------------------------------------------------
// Rendering

/// The text of the combination a fragment currently selects.
pub open spec fn render_frag(f: FragView) -> Seq<char>
    decreases f,
{
    match f {
        FragView::Chunk(t) => t,
        FragView::Switch(s) => render_switch(s),
    }
}

/// The text of the selected option of a switch; nothing where no option is
/// selected.
pub open spec fn render_switch(s: SwitchView) -> Seq<char>
    decreases s,
{
    if s.cursor < s.options.len() {
        render_seq(s.options[s.cursor as int])
    } else {
        seq![]
    }
}

/// The texts of the fragments `fs`, concatenated.
pub open spec fn render_seq(fs: Seq<FragView>) -> Seq<char>
    decreases fs,
{
    if fs.len() == 0 {
        seq![]
    } else {
        render_frag(fs[0]) + render_seq(fs.subrange(1, fs.len() as int))
    }
}

// ---------------------------------------------------------------------------
// Position of the current combination

/// The position of the current combination of a fragment among all of its
/// combinations, counting from 0.
pub open spec fn index_frag(f: FragView) -> nat
    decreases f,
{
    match f {
        FragView::Chunk(_) => 0,
        FragView::Switch(s) => index_switch(s),
    }
}

/// The combinations of the options before the selected one, plus the
/// position within the selected option.
pub open spec fn index_switch(s: SwitchView) -> nat
    decreases s,
{
    if s.cursor < s.options.len() {
        count_options(s.options.subrange(0, s.cursor as int)) + index_seq(s.options[s.cursor as int])
    } else {
        0
    }
}

/// Mixed-radix position of a fragment sequence: the first fragment is the
/// fastest digit.
pub open spec fn index_seq(fs: Seq<FragView>) -> nat
    decreases fs,
{
    if fs.len() == 0 {
        0
    } else {
        index_frag(fs[0]) + count_frag(fs[0]) * index_seq(fs.subrange(1, fs.len() as int))
    }
}

// ---------------------------------------------------------------------------
// Well-formedness

/// Every switch selects an existing option (or has none and a zero cursor),
/// and every option that is not selected stands at its first combination.
pub open spec fn wf_frag(f: FragView) -> bool
    decreases f,
{
    match f {
        FragView::Chunk(_) => true,
        FragView::Switch(s) => wf_switch(s),
    }
}

/// A well-formed switch: see `wf_frag`.
pub open spec fn wf_switch(s: SwitchView) -> bool
    decreases s,
{
    &&& if s.options.len() == 0 {
        s.cursor == 0
    } else {
        s.cursor < s.options.len()
    }
    &&& forall|j: int| 0 <= j < s.options.len() ==> wf_seq(#[trigger] s.options[j])
    &&& forall|j: int|
        0 <= j < s.options.len() && j != s.cursor ==> index_seq(#[trigger] s.options[j]) == 0
}

/// Every fragment of `fs` is well formed.
pub open spec fn wf_seq(fs: Seq<FragView>) -> bool
    decreases fs,
{
    forall|k: int| 0 <= k < fs.len() ==> wf_frag(#[trigger] fs[k])
}

/// Every switch selects its first option.
pub open spec fn fresh_frag(f: FragView) -> bool
    decreases f,
{
    match f {
        FragView::Chunk(_) => true,
        FragView::Switch(s) => fresh_switch(s),
    }
}

/// A switch, and every switch within it, selects its first option.
pub open spec fn fresh_switch(s: SwitchView) -> bool
    decreases s,
{
    &&& s.cursor == 0
    &&& forall|j: int| 0 <= j < s.options.len() ==> fresh_seq(#[trigger] s.options[j])
}

/// Every fragment of `fs` selects its first combination.
pub open spec fn fresh_seq(fs: Seq<FragView>) -> bool
    decreases fs,
{
    forall|k: int| 0 <= k < fs.len() ==> fresh_frag(#[trigger] fs[k])
}

// ---------------------------------------------------------------------------
// Advancing

/// One step of the odometer on a fragment: the new fragment, and whether it
/// wrapped around to its first combination (the carry).
pub open spec fn advance_frag(f: FragView) -> (FragView, bool)
    decreases f,
{
    match f {
        FragView::Chunk(_) => (f, true),
        FragView::Switch(s) => {
            let (t, c) = advance_switch(s);
            (FragView::Switch(t), c)
        },
    }
}

/// The selected option advances first; where it carries, the switch selects
/// the next option, wrapping to the first one after the last.
pub open spec fn advance_switch(s: SwitchView) -> (SwitchView, bool)
    decreases s,
{
    if s.cursor < s.options.len() {
        let (opt, c) = advance_seq(s.options[s.cursor as int]);
        let o = s.options.update(s.cursor as int, opt);
        if !c {
            (SwitchView { options: o, cursor: s.cursor, write_cursor: s.write_cursor }, false)
        } else if s.cursor + 1 < s.options.len() {
            (SwitchView { options: o, cursor: s.cursor + 1, write_cursor: s.write_cursor }, false)
        } else {
            (SwitchView { options: o, cursor: 0, write_cursor: s.write_cursor }, true)
        }
    } else {
        (SwitchView { options: s.options, cursor: 0, write_cursor: s.write_cursor }, true)
    }
}

/// The first fragment advances; only where it carries does the next one
/// advance, and so on.
pub open spec fn advance_seq(fs: Seq<FragView>) -> (Seq<FragView>, bool)
    decreases fs,
{
    if fs.len() == 0 {
        (fs, true)
    } else {
        let (g, c) = advance_frag(fs[0]);
        if !c {
            (fs.update(0, g), false)
        } else {
            let (rest, c2) = advance_seq(fs.subrange(1, fs.len() as int));
            (seq![g] + rest, c2)
        }
    }
}

// ---------------------------------------------------------------------------
// Facts about counts and positions

pub proof fn lemma_count_pos_frag(f: FragView)
    ensures
        count_frag(f) >= 1,
    decreases f,
{
    if let FragView::Switch(s) = f {
        lemma_count_pos_switch(s);
    }
}

proof fn lemma_count_pos_switch(s: SwitchView)
    ensures
        count_switch(s) >= 1,
    decreases s,
{
    if s.options.len() > 0 {
        lemma_count_pos_options(s.options);
    }
}

proof fn lemma_count_pos_options(o: Seq<Seq<FragView>>)
    requires
        o.len() > 0,
    ensures
        count_options(o) >= 1,
    decreases o,
{
    lemma_count_pos_seq(o[o.len() - 1]);
}

pub proof fn lemma_count_pos_seq(fs: Seq<FragView>)
    ensures
        count_seq(fs) >= 1,
    decreases fs,
{
    if fs.len() > 0 {
        let a = count_frag(fs[0]);
        let b = count_seq(fs.subrange(1, fs.len() as int));
        lemma_count_pos_frag(fs[0]);
        lemma_count_pos_seq(fs.subrange(1, fs.len() as int));
        assert(a * b >= 1) by (nonlinear_arith)
            requires
                a >= 1,
                b >= 1,
        ;
    }
}

/// The options up to `k + 1` count those up to `k` and option `k`.
pub proof fn lemma_count_options_step(o: Seq<Seq<FragView>>, k: int)
    requires
        0 <= k < o.len(),
    ensures
        count_options(o.subrange(0, k + 1)) == count_options(o.subrange(0, k)) + count_seq(o[k]),
{
    assert(o.subrange(0, k + 1).subrange(0, k) =~= o.subrange(0, k));
}

/// A prefix of the options counts no more than all of them.
pub proof fn lemma_count_options_prefix(o: Seq<Seq<FragView>>, k: int)
    requires
        0 <= k <= o.len(),
    ensures
        count_options(o.subrange(0, k)) <= count_options(o),
    decreases o.len() - k,
{
    if k == o.len() {
        assert(o.subrange(0, k) =~= o);
    } else {
        lemma_count_options_step(o, k);
        lemma_count_options_prefix(o, k + 1);
    }
}

/// Replacing an option by one with as many combinations keeps the count.
proof fn lemma_count_options_update(o: Seq<Seq<FragView>>, c: int, x: Seq<FragView>)
    requires
        0 <= c < o.len(),
        count_seq(x) == count_seq(o[c]),
    ensures
        count_options(o.update(c, x)) == count_options(o),
    decreases o.len(),
{
    let n = o.len() - 1;
    if c == n {
        assert(o.update(c, x).subrange(0, n) =~= o.subrange(0, n));
    } else {
        assert(o.update(c, x).subrange(0, n) =~= o.subrange(0, n).update(c, x));
        lemma_count_options_update(o.subrange(0, n), c, x);
    }
}

proof fn lemma_wf_rest(fs: Seq<FragView>)
    requires
        fs.len() > 0,
        wf_seq(fs),
    ensures
        wf_frag(fs[0]),
        wf_seq(fs.subrange(1, fs.len() as int)),
{
    assert(wf_frag(fs[0]));
    let rest = fs.subrange(1, fs.len() as int);
    assert forall|k: int| 0 <= k < rest.len() implies wf_frag(#[trigger] rest[k]) by {
        assert(rest[k] == fs[k + 1]);
    }
}

proof fn lemma_index_bound_frag(f: FragView)
    requires
        wf_frag(f),
    ensures
        index_frag(f) < count_frag(f),
    decreases f,
{
    if let FragView::Switch(s) = f {
        lemma_index_bound_switch(s);
    }
}

proof fn lemma_index_bound_switch(s: SwitchView)
    requires
        wf_switch(s),
    ensures
        index_switch(s) < count_switch(s),
    decreases s,
{
    if s.cursor < s.options.len() {
        let c = s.cursor as int;
        assert(wf_seq(s.options[c]));
        lemma_index_bound_seq(s.options[c]);
        lemma_count_options_step(s.options, c);
        lemma_count_options_prefix(s.options, c + 1);
    }
}

proof fn lemma_index_bound_seq(fs: Seq<FragView>)
    requires
        wf_seq(fs),
    ensures
        index_seq(fs) < count_seq(fs),
    decreases fs,
{
    if fs.len() > 0 {
        let rest = fs.subrange(1, fs.len() as int);
        lemma_wf_rest(fs);
        lemma_index_bound_frag(fs[0]);
        lemma_index_bound_seq(rest);
        let i0 = index_frag(fs[0]);
        let c0 = count_frag(fs[0]);
        let ir = index_seq(rest);
        let cr = count_seq(rest);
        assert(i0 + c0 * ir < c0 * cr) by (nonlinear_arith)
            requires
                i0 < c0,
                ir < cr,
        ;
    }
}

/// One odometer step keeps a fragment well formed and its count, and moves
/// its position on by one, wrapping to 0 (with a carry) after the last.
proof fn lemma_advance_frag(f: FragView)
    requires
        wf_frag(f),
    ensures
        ({
            let (g, c) = advance_frag(f);
            &&& wf_frag(g)
            &&& count_frag(g) == count_frag(f)
            &&& c == (index_frag(f) + 1 == count_frag(f))
            &&& index_frag(g) == if c {
                0
            } else {
                index_frag(f) + 1
            }
        }),
    decreases f,
{
    if let FragView::Switch(s) = f {
        lemma_advance_switch(s);
    }
}

proof fn lemma_advance_switch(s: SwitchView)
    requires
        wf_switch(s),
    ensures
        ({
            let (t, c) = advance_switch(s);
            &&& wf_switch(t)
            &&& t.options.len() == s.options.len()
            &&& count_switch(t) == count_switch(s)
            &&& c == (index_switch(s) + 1 == count_switch(s))
            &&& index_switch(t) == if c {
                0
            } else {
                index_switch(s) + 1
            }
        }),
    decreases s,
{
    let o = s.options;
    if s.cursor < o.len() {
        let c = s.cursor as int;
        let opt = o[c];
        assert(wf_seq(opt));
        lemma_advance_seq(opt);
        lemma_index_bound_seq(opt);
        let (opt2, cc) = advance_seq(opt);
        let o2 = o.update(c, opt2);
        lemma_count_options_update(o, c, opt2);
        assert(o2.subrange(0, c) =~= o.subrange(0, c));
        lemma_count_options_step(o, c);
        lemma_count_options_step(o2, c);
        lemma_count_options_prefix(o, c + 1);
        let (t, carry) = advance_switch(s);
        assert(forall|j: int| 0 <= j < o2.len() && j != c ==> o2[j] == o[j]);
        if !cc {
            assert(forall|j: int| 0 <= j < o2.len() ==> wf_seq(#[trigger] o2[j]));
        } else if c + 1 < o.len() {
            lemma_count_options_step(o, c + 1);
            lemma_count_options_prefix(o, c + 2);
            lemma_count_pos_seq(o[c + 1]);
            assert(forall|j: int| 0 <= j < o2.len() ==> wf_seq(#[trigger] o2[j]));
            assert(index_seq(o2[c + 1]) == 0);
        } else {
            assert(o.subrange(0, c + 1) =~= o);
            assert(forall|j: int| 0 <= j < o2.len() ==> wf_seq(#[trigger] o2[j]));
            assert(o2.subrange(0, 0) =~= Seq::<Seq<FragView>>::empty());
            assert(index_seq(o2[0]) == 0);
        }
    }
}

proof fn lemma_advance_seq(fs: Seq<FragView>)
    requires
        wf_seq(fs),
    ensures
        ({
            let (g, c) = advance_seq(fs);
            &&& wf_seq(g)
            &&& g.len() == fs.len()
            &&& count_seq(g) == count_seq(fs)
            &&& c == (index_seq(fs) + 1 == count_seq(fs))
            &&& index_seq(g) == if c {
                0
            } else {
                index_seq(fs) + 1
            }
        }),
    decreases fs,
{
    if fs.len() > 0 {
        let n = fs.len() as int;
        let rest = fs.subrange(1, n);
        lemma_wf_rest(fs);
        lemma_advance_frag(fs[0]);
        lemma_index_bound_frag(fs[0]);
        lemma_index_bound_seq(rest);
        let (g0, c0) = advance_frag(fs[0]);
        let i0 = index_frag(fs[0]);
        let k0 = count_frag(fs[0]);
        let ir = index_seq(rest);
        let cr = count_seq(rest);
        if !c0 {
            let g = fs.update(0, g0);
            assert(g.subrange(1, n) =~= rest);
            assert forall|k: int| 0 <= k < g.len() implies wf_frag(#[trigger] g[k]) by {
                if k > 0 {
                    assert(g[k] == fs[k]);
                }
            }
            assert(i0 + 1 + k0 * ir < k0 * cr) by (nonlinear_arith)
                requires
                    i0 + 1 < k0,
                    ir < cr,
            ;
        } else {
            lemma_advance_seq(rest);
            lemma_count_pos_frag(fs[0]);
            let (rest2, c2) = advance_seq(rest);
            let g = seq![g0] + rest2;
            assert(g.subrange(1, n) =~= rest2);
            assert(g[0] == g0);
            assert forall|k: int| 0 <= k < g.len() implies wf_frag(#[trigger] g[k]) by {
                if k > 0 {
                    assert(g[k] == rest2[k - 1]);
                }
            }
            if !c2 {
                assert(k0 * (ir + 1) == k0 * ir + k0) by (nonlinear_arith);
                assert(k0 * (ir + 1) < k0 * cr) by (nonlinear_arith)
                    requires
                        ir + 1 < cr,
                        k0 >= 1,
                ;
            } else {
                assert(k0 * (ir + 1) == k0 * ir + k0) by (nonlinear_arith);
                assert(k0 * 0 == 0) by (nonlinear_arith);
            }
        }
    }
}

/// How the recursive definitions unfold on a suffix of a sequence.
pub proof fn lemma_suffix(fs: Seq<FragView>, k: int)
    requires
        0 <= k < fs.len(),
    ensures
        count_seq(fs.subrange(k, fs.len() as int)) == count_frag(fs[k]) * count_seq(
            fs.subrange(k + 1, fs.len() as int),
        ),
        render_seq(fs.subrange(k, fs.len() as int)) == render_frag(fs[k]) + render_seq(
            fs.subrange(k + 1, fs.len() as int),
        ),
        fs.subrange(k, fs.len() as int)[0] == fs[k],
        fs.subrange(k, fs.len() as int).subrange(1, fs.len() - k) == fs.subrange(
            k + 1,
            fs.len() as int,
        ),
{
    assert(fs.subrange(k, fs.len() as int).subrange(1, fs.len() - k) =~= fs.subrange(
        k + 1,
        fs.len() as int,
    ));
}

/// A pattern seen as fragment views.
pub struct PatternView {
    pub fragments: Seq<FragView>,
    pub done: bool,
}

/// The number of combinations of a pattern.
pub open spec fn count_pattern(p: PatternView) -> nat {
    count_seq(p.fragments)
}

/// The current combination of a pattern, or `None` once it is exhausted.
pub open spec fn render_pattern(p: PatternView) -> Option<Seq<char>> {
    if p.done {
        None
    } else {
        Some(render_seq(p.fragments))
    }
}

/// The pattern after one advance: the odometer steps, and the pattern is
/// exhausted where it wrapped around. An exhausted pattern stays as it is.
pub open spec fn next_state(p: PatternView) -> PatternView {
    if p.done {
        p
    } else {
        let (fs, c) = advance_seq(p.fragments);
        PatternView { fragments: fs, done: c }
    }
}

/// The pattern after `k` advances.
pub open spec fn after_steps(p: PatternView, k: nat) -> PatternView
    decreases k,
{
    if k == 0 {
        p
    } else {
        next_state(after_steps(p, (k - 1) as nat))
    }
}

proof fn lemma_fresh_frag(f: FragView)
    requires
        fresh_frag(f),
    ensures
        wf_frag(f),
        index_frag(f) == 0,
    decreases f,
{
    if let FragView::Switch(s) = f {
        lemma_fresh_switch(s);
    }
}

proof fn lemma_fresh_switch(s: SwitchView)
    requires
        fresh_switch(s),
    ensures
        wf_switch(s),
        index_switch(s) == 0,
    decreases s,
{
    assert forall|j: int| 0 <= j < s.options.len() implies wf_seq(#[trigger] s.options[j])
        && index_seq(s.options[j]) == 0 by {
        lemma_fresh_seq(s.options[j]);
    }
    assert(s.options.subrange(0, 0) =~= Seq::<Seq<FragView>>::empty());
}

proof fn lemma_fresh_seq(fs: Seq<FragView>)
    requires
        fresh_seq(fs),
    ensures
        wf_seq(fs),
        index_seq(fs) == 0,
    decreases fs,
{
    assert forall|k: int| 0 <= k < fs.len() implies wf_frag(#[trigger] fs[k]) by {
        lemma_fresh_frag(fs[k]);
    }
    if fs.len() > 0 {
        let rest = fs.subrange(1, fs.len() as int);
        assert(fresh_frag(fs[0]));
        lemma_fresh_frag(fs[0]);
        assert forall|k: int| 0 <= k < rest.len() implies fresh_frag(#[trigger] rest[k]) by {
            assert(rest[k] == fs[k + 1]);
        }
        lemma_fresh_seq(rest);
        let c0 = count_frag(fs[0]);
        assert(c0 * 0 == 0) by (nonlinear_arith);
    }
}

/// Before the `k`-th advance of a fresh pattern (`k` below its count), the
/// pattern is not exhausted and stands at combination `k`.
proof fn lemma_steps(p: PatternView, k: nat)
    requires
        fresh_seq(p.fragments),
        !p.done,
        k < count_pattern(p),
    ensures
        !after_steps(p, k).done,
        wf_seq(after_steps(p, k).fragments),
        count_seq(after_steps(p, k).fragments) == count_pattern(p),
        index_seq(after_steps(p, k).fragments) == k,
    decreases k,
{
    if k == 0 {
        lemma_fresh_seq(p.fragments);
    } else {
        lemma_steps(p, (k - 1) as nat);
        lemma_advance_seq(after_steps(p, (k - 1) as nat).fragments);
    }
}

/// Draining a freshly built pattern with `next` yields exactly `count`
/// combinations: each of the first `count` calls produces one, and the call
/// after them finds the pattern exhausted.
pub proof fn lemma_count_matches_enumeration(p: PatternView)
    requires
        fresh_seq(p.fragments),
        !p.done,
    ensures
        forall|k: nat| k < count_pattern(p) ==> (#[trigger] render_pattern(after_steps(p, k))) is Some,
        render_pattern(after_steps(p, count_pattern(p))) is None,
{
    assert forall|k: nat| k < count_pattern(p) implies (#[trigger] render_pattern(
        after_steps(p, k),
    )) is Some by {
        lemma_steps(p, k);
    }
    lemma_fresh_seq(p.fragments);
    lemma_count_pos_seq(p.fragments);
    let last = (count_pattern(p) - 1) as nat;
    lemma_steps(p, last);
    lemma_advance_seq(after_steps(p, last).fragments);
}

/// Once the last combination has been produced, advancing exhausts the
/// pattern: the odometer wraps back to the first combination, the pattern
/// renders nothing, and further advances leave it as it is.
pub proof fn lemma_exhaustion_wraps(p: PatternView)
    requires
        wf_seq(p.fragments),
        !p.done,
        index_seq(p.fragments) + 1 == count_pattern(p),
    ensures
        next_state(p).done,
        index_seq(next_state(p).fragments) == 0,
        count_pattern(next_state(p)) == count_pattern(p),
        render_pattern(next_state(p)) is None,
        next_state(next_state(p)) == next_state(p),
{
    lemma_advance_seq(p.fragments);
}

} // verus!
