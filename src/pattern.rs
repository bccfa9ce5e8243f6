//! The pattern tree and its enumeration: literal chunks and choice points
//! ("switches"), rendered and advanced like a mixed-radix counter.
use crate::model::{
    advance_frag, advance_seq, advance_switch, count_frag, count_options, count_pattern,
    count_seq, count_switch, lemma_count_options_prefix, lemma_count_options_step,
    lemma_count_pos_frag, lemma_count_pos_seq, lemma_suffix, next_state, render_frag,
    render_pattern, render_seq, render_switch, FragView, PatternView, SwitchView,
};
use vstd::prelude::*;

verus! {

/// A node of the pattern tree.
#[derive(Debug, PartialEq)]
pub enum Fragment {
    /// Literal text, emitted verbatim.
    Chunk(String),
    /// A choice point.
    Switch(Switch),
}

/// A choice point: one of its options is selected at any time.
#[derive(Debug, PartialEq)]
pub struct Switch {
    /// The alternatives, each a sequence of fragments.
    pub options: Vec<Vec<Fragment>>,
    /// The selected option.
    pub ctr: usize,
    /// The option that fragments are added to while the tree is built.
    pub write_cursor: usize,
}

/// The view of a fragment.
pub open spec fn frag_view(f: Fragment) -> FragView
    decreases f,
{
    match f {
        Fragment::Chunk(s) => FragView::Chunk(s@),
        Fragment::Switch(sw) => FragView::Switch(switch_view(sw)),
    }
}

/// The view of a switch: its options as sequences of fragment views.
pub open spec fn switch_view(sw: Switch) -> SwitchView
    decreases sw,
{
    SwitchView {
        options: Seq::new(sw.options@.len(), |i: int|
            if 0 <= i < sw.options@.len() {
                frags_view(sw.options@[i]@)
            } else {
                seq![]
            }),
        cursor: sw.ctr as nat,
        write_cursor: sw.write_cursor as nat,
    }
}

/// The views of a sequence of fragments.
pub open spec fn frags_view(fs: Seq<Fragment>) -> Seq<FragView>
    decreases fs,
{
    Seq::new(
        fs.len(),
        |i: int|
            if 0 <= i < fs.len() {
                frag_view(fs[i])
            } else {
                FragView::Chunk(seq![])
            },
    )
}

impl View for Fragment {
    type V = FragView;

    open spec fn view(&self) -> FragView {
        frag_view(*self)
    }
}

impl View for Switch {
    type V = SwitchView;

    open spec fn view(&self) -> SwitchView {
        switch_view(*self)
    }
}

// ---------------------------------------------------------------------------
// Executable counting, rendering and advancing

/// The product of the counts of the fragments `fs`, or `None` where it
/// exceeds `usize::MAX`.
fn checked_count_seq(fs: &Vec<Fragment>) -> (r: Option<usize>)
    ensures
        r == if count_seq(frags_view(fs@)) <= usize::MAX {
            Some(count_seq(frags_view(fs@)) as usize)
        } else {
            None::<usize>
        },
    decreases fs,
{
    let ghost v = frags_view(fs@);
    let n = fs.len();
    let mut acc: usize = 1;
    let mut k: usize = 0;
    assert(v.subrange(0, n as int) =~= v);
    while k < n
        invariant
            n == fs@.len(),
            v == frags_view(fs@),
            k <= n,
            acc >= 1,
            count_seq(v) == acc * count_seq(v.subrange(k as int, n as int)),
        decreases n - k,
    {
        proof {
            lemma_suffix(v, k as int);
            lemma_count_pos_seq(v.subrange(k + 1, n as int));
            lemma_count_pos_frag(v[k as int]);
        }
        let ghost rest = count_seq(v.subrange(k + 1, n as int));
        let m: usize = match &fs[k] {
            Fragment::Chunk(_) => 1,
            Fragment::Switch(sw) => match sw.checked_count() {
                Some(m) => m,
                None => {
                    let ghost big = count_frag(v[k as int]);
                    assert(acc * (big * rest) >= big) by (nonlinear_arith)
                        requires
                            acc >= 1,
                            rest >= 1,
                    ;
                    return None;
                },
            },
        };
        assert(m == count_frag(v[k as int]));
        match acc.checked_mul(m) {
            Some(p) => {
                assert(acc * (m * rest) == (acc * m) * rest) by (nonlinear_arith);
                assert(acc * m >= 1) by (nonlinear_arith)
                    requires
                        acc >= 1,
                        m >= 1,
                ;
                acc = p;
            },
            None => {
                assert(acc * (m * rest) >= acc * m) by (nonlinear_arith)
                    requires
                        rest >= 1,
                        acc >= 1,
                ;
                return None;
            },
        }
        k = k + 1;
    }
    assert(v.subrange(n as int, n as int) =~= Seq::<FragView>::empty());
    assert(acc * 1 == acc);
    Some(acc)
}

/// Appends the current text of the fragments `fs` to `out`.
fn render_seq_into(fs: &Vec<Fragment>, out: &mut String)
    ensures
        final(out)@ == old(out)@ + render_seq(frags_view(fs@)),
    decreases fs,
{
    let ghost v = frags_view(fs@);
    let ghost start = out@;
    let n = fs.len();
    let mut k: usize = 0;
    assert(v.subrange(0, n as int) =~= v);
    while k < n
        invariant
            n == fs@.len(),
            v == frags_view(fs@),
            k <= n,
            start + render_seq(v) == out@ + render_seq(v.subrange(k as int, n as int)),
        decreases n - k,
    {
        proof {
            lemma_suffix(v, k as int);
        }
        let ghost before = out@;
        match &fs[k] {
            Fragment::Chunk(t) => out.push_str(t.as_str()),
            Fragment::Switch(sw) => sw.next(out),
        }
        assert(before + (render_frag(v[k as int]) + render_seq(v.subrange(k + 1, n as int)))
            =~= out@ + render_seq(v.subrange(k + 1, n as int)));
        k = k + 1;
    }
    assert(v.subrange(n as int, n as int) =~= Seq::<FragView>::empty());
    assert(out@ =~= start + render_seq(v));
}

/// Advances the fragments `fs` by one combination, the first fragment
/// fastest; returns whether they all wrapped around.
fn bump_seq(fs: &mut Vec<Fragment>) -> (r: bool)
    ensures
        (frags_view(final(fs)@), r) == advance_seq(frags_view(old(fs)@)),
    decreases *old(fs),
{
    let ghost v0 = frags_view(fs@);
    let ghost f0 = *fs;
    let n = fs.len();
    let mut k: usize = 0;
    assert(v0.subrange(0, n as int) =~= v0);
    assert(frags_view(fs@).subrange(0, 0) =~= Seq::<FragView>::empty());
    while k < n
        invariant
            n == fs@.len(),
            k <= n,
            v0.len() == n,
            f0 == *old(fs),
            v0 == frags_view(f0@),
            forall|i: int| k <= i < n ==> fs@[i] == f0@[i],
            frags_view(fs@).subrange(k as int, n as int) == v0.subrange(k as int, n as int),
            advance_seq(v0) == (
                frags_view(fs@).subrange(0, k as int) + advance_seq(v0.subrange(k as int, n as int)).0,
                advance_seq(v0.subrange(k as int, n as int)).1,
            ),
        decreases n - k,
    {
        let ghost cur = frags_view(fs@);
        proof {
            lemma_suffix(v0, k as int);
            assert(cur[k as int] == cur.subrange(k as int, n as int)[0]);
            assert(decreases_to!(f0 => f0@[k as int]));
        }
        let carry = match &mut fs[k] {
            Fragment::Chunk(_) => true,
            Fragment::Switch(sw) => sw.bump(),
        };
        let ghost g = advance_frag(v0[k as int]).0;
        assert(frags_view(fs@) =~= cur.update(k as int, g));
        if !carry {
            let ghost r = v0.subrange(k as int, n as int);
            assert(advance_seq(r) == (r.update(0, g), false));
            assert(frags_view(fs@) =~= cur.subrange(0, k as int) + r.update(0, g));
            return false;
        }
        assert(frags_view(fs@).subrange(0, k + 1) =~= cur.subrange(0, k as int).push(g));
        assert(frags_view(fs@).subrange(k + 1, n as int) =~= v0.subrange(k + 1, n as int));
        k = k + 1;
    }
    assert(frags_view(fs@).subrange(0, n as int) =~= frags_view(fs@));
    assert(v0.subrange(n as int, n as int) =~= Seq::<FragView>::empty());
    true
}

impl Switch {
    /// The number of combinations of this switch, or `None` where it exceeds
    /// `usize::MAX`.
    pub fn checked_count(&self) -> (r: Option<usize>)
        ensures
            r == if count_switch(self@) <= usize::MAX {
                Some(count_switch(self@) as usize)
            } else {
                None::<usize>
            },
        decreases self,
    {
        let ghost o = self@.options;
        let n = self.options.len();
        if n == 0 {
            return Some(1);
        }
        let mut sum: usize = 0;
        let mut j: usize = 0;
        assert(o.subrange(0, 0) =~= Seq::<Seq<FragView>>::empty());
        while j < n
            invariant
                n == self.options@.len(),
                o == self@.options,
                j <= n,
                sum == count_options(o.subrange(0, j as int)),
            decreases n - j,
        {
            proof {
                lemma_count_options_step(o, j as int);
                lemma_count_options_prefix(o, j + 1);
            }
            let m = match checked_count_seq(&self.options[j]) {
                Some(m) => m,
                None => {
                    return None;
                },
            };
            match sum.checked_add(m) {
                Some(t) => {
                    sum = t;
                },
                None => {
                    return None;
                },
            }
            j = j + 1;
        }
        assert(o.subrange(0, n as int) =~= o);
        Some(sum)
    }

    /// The number of combinations of this switch: the sum over its options
    /// of the product of their fragments' counts (one where it has no
    /// option).
    pub fn count(&self) -> (r: usize)
        requires
            count_switch(self@) <= usize::MAX,
        ensures
            r == count_switch(self@),
    {
        match self.checked_count() {
            Some(r) => r,
            None => 0,
        }
    }

    /// Appends the text of the selected option to `out`; nothing where no
    /// option is selected.
    pub fn next(&self, out: &mut String)
        ensures
            final(out)@ == old(out)@ + render_switch(self@),
        decreases self,
    {
        if self.ctr < self.options.len() {
            render_seq_into(&self.options[self.ctr], out);
        } else {
            assert(out@ =~= out@ + Seq::<char>::empty());
        }
    }

    /// Advances this switch by one combination: the selected option first,
    /// then, where that wraps around, the selection itself. Returns whether
    /// the switch wrapped around to its first option.
    pub fn bump(&mut self) -> (r: bool)
        ensures
            (final(self)@, r) == advance_switch(old(self)@),
        decreases *old(self),
    {
        let ghost s0 = self@;
        let n = self.options.len();
        if self.ctr < n {
            let c = self.ctr;
            let carry = bump_seq(&mut self.options[c]);
            let ghost opt2 = advance_seq(s0.options[c as int]).0;
            assert(self@.options =~= s0.options.update(c as int, opt2));
            if !carry {
                return false;
            }
            if c + 1 < n {
                self.ctr = c + 1;
                false
            } else {
                self.ctr = 0;
                true
            }
        } else {
            self.ctr = 0;
            true
        }
    }
}

/// A parsed pattern: its top-level fragments, and whether every combination
/// has been produced.
#[derive(Debug, PartialEq)]
pub struct Pattern {
    /// The top-level fragments, in order.
    pub fragments: Vec<Fragment>,
    /// Set once the odometer has wrapped around after the last combination.
    pub done: bool,
}

impl View for Pattern {
    type V = PatternView;

    open spec fn view(&self) -> PatternView {
        PatternView { fragments: frags_view(self.fragments@), done: self.done }
    }
}

impl Pattern {
    /// Appends the current combination to `out` and advances; `None` once
    /// every combination has been produced.
    pub fn next<'a>(&mut self, out: &'a mut String) -> (r: Option<&'a mut String>)
        ensures
            final(self)@ == next_state(old(self)@),
            match r {
                Some(o) => !old(self).done && (*o)@ == old(out)@ + render_seq(old(self)@.fragments) && *final(out) == *final(o),
                None => old(self).done && final(out)@ == old(out)@,
            },
    {
        if self.done {
            return None;
        }
        render_seq_into(&self.fragments, out);
        self.done = bump_seq(&mut self.fragments);
        Some(out)
    }

    /// The current combination as a new string, then advances; `None` once
    /// every combination has been produced.
    pub fn next_owned(&mut self) -> (r: Option<String>)
        ensures
            final(self)@ == next_state(old(self)@),
            match r {
                Some(t) => render_pattern(old(self)@) == Some(t@),
                None => render_pattern(old(self)@) is None,
            },
    {
        let mut out = String::new();
        match self.next(&mut out) {
            Some(_) => {
                assert(out@ =~= render_seq(old(self)@.fragments));
                Some(out)
            },
            None => None,
        }
    }

    /// Appends the current combination to `out`, without advancing; `None`
    /// once every combination has been produced.
    pub fn render<'a>(&self, out: &'a mut String) -> (r: Option<&'a mut String>)
        ensures
            match r {
                Some(o) => render_pattern(self@) == Some((*o)@.subrange(old(out)@.len() as int, (*o)@.len() as int))
                    && (*o)@ == old(out)@ + render_seq(self@.fragments) && *final(out) == *final(o),
                None => render_pattern(self@) is None && final(out)@ == old(out)@,
            },
    {
        if self.done {
            return None;
        }
        let ghost start = out@;
        render_seq_into(&self.fragments, out);
        assert(out@.subrange(start.len() as int, out@.len() as int) =~= render_seq(self@.fragments));
        Some(out)
    }

    /// Moves to the next combination. Returns whether the pattern is now
    /// exhausted: it wrapped around after its last combination, or was
    /// exhausted already.
    pub fn advance(&mut self) -> (r: bool)
        ensures
            final(self)@ == next_state(old(self)@),
            r == final(self).done,
    {
        if !self.done {
            self.done = bump_seq(&mut self.fragments);
        }
        self.done
    }

    /// Steps the odometer of the top-level fragments, the first one fastest.
    /// Returns whether they all wrapped around to their first combination.
    /// The exhaustion flag is left as it is.
    pub fn bump(&mut self) -> (r: bool)
        ensures
            (final(self)@.fragments, r) == advance_seq(old(self)@.fragments),
            final(self).done == old(self).done,
    {
        bump_seq(&mut self.fragments)
    }

    /// The number of combinations, or `None` where it exceeds `usize::MAX`.
    pub fn checked_count(&self) -> (r: Option<usize>)
        ensures
            r == if count_pattern(self@) <= usize::MAX {
                Some(count_pattern(self@) as usize)
            } else {
                None::<usize>
            },
    {
        checked_count_seq(&self.fragments)
    }

    /// The number of combinations: the product of the top-level fragments'
    /// counts, computed without enumerating.
    pub fn count(&self) -> (r: usize)
        requires
            count_pattern(self@) <= usize::MAX,
        ensures
            r == count_pattern(self@),
    {
        match checked_count_seq(&self.fragments) {
            Some(r) => r,
            None => 0,
        }
    }
}

impl From<Vec<Fragment>> for Pattern {
    /// A pattern over the given top-level fragments, not exhausted.
    fn from(fragments: Vec<Fragment>) -> (r: Pattern) {
        Pattern { fragments, done: false }
    }
}

impl vstd::std_specs::convert::FromSpecImpl<Vec<Fragment>> for Pattern {
    open spec fn obeys_from_spec() -> bool {
        true
    }

    open spec fn from_spec(v: Vec<Fragment>) -> Pattern {
        Pattern { fragments: v, done: false }
    }
}

impl From<Vec<Vec<Fragment>>> for Switch {
    /// A switch over the given options, selecting the first.
    fn from(options: Vec<Vec<Fragment>>) -> (r: Switch) {
        Switch { options, ctr: 0, write_cursor: 0 }
    }
}

impl vstd::std_specs::convert::FromSpecImpl<Vec<Vec<Fragment>>> for Switch {
    open spec fn obeys_from_spec() -> bool {
        true
    }

    open spec fn from_spec(v: Vec<Vec<Fragment>>) -> Switch {
        Switch { options: v, ctr: 0, write_cursor: 0 }
    }
}

} // verus!
