//! Building the pattern tree from tokens: a stack of the switches still
//! open, each with a write cursor that routes fragments to its options.
use crate::model::{fresh_frag, fresh_seq, fresh_switch, FragView, PatternView, SwitchView};
use crate::pattern::{frags_view, Fragment, Pattern, Switch};
use crate::tokens::{
    escape_all, flush, lemma_escaped_text_is_literal, lex_all, parse, tokens_view, ParseError,
    Token, TokenView,
};
use vstd::prelude::*;

verus! {

/// The options `o` with empty options added so that position `w` exists.
pub open spec fn pad_options(o: Seq<Seq<FragView>>, w: int) -> Seq<Seq<FragView>> {
    if w < o.len() {
        o
    } else {
        o + Seq::new((w + 1 - o.len()) as nat, |i: int| Seq::<FragView>::empty())
    }
}

/// `s` with `f` appended to the option its write cursor points at.
pub open spec fn push_view(s: SwitchView, f: FragView) -> SwitchView {
    let w = s.write_cursor as int;
    let o = pad_options(s.options, w);
    SwitchView { options: o.update(w, o[w].push(f)), cursor: s.cursor, write_cursor: s.write_cursor }
}

/// A switch with no options and both cursors at 0.
pub open spec fn empty_switch() -> SwitchView {
    SwitchView { options: seq![], cursor: 0, write_cursor: 0 }
}

/// The state of the builder: the switches still open, innermost last, and
/// the top-level fragments built so far.
pub struct BuildState {
    pub stack: Seq<SwitchView>,
    pub top: Seq<FragView>,
}

/// `f` added to the innermost open switch, or to the top level where none
/// is open.
pub open spec fn add_fragment(st: BuildState, f: FragView) -> BuildState {
    if st.stack.len() == 0 {
        BuildState { stack: st.stack, top: st.top.push(f) }
    } else {
        let n = st.stack.len() - 1;
        BuildState { stack: st.stack.update(n, push_view(st.stack[n], f)), top: st.top }
    }
}

/// One token applied to the builder state. A close or a separator with no
/// open switch changes nothing.
pub open spec fn build_step(st: BuildState, t: TokenView) -> BuildState {
    match t {
        TokenView::Chunk(text) => add_fragment(st, FragView::Chunk(text)),
        TokenView::SwitchOpen => BuildState { stack: st.stack.push(empty_switch()), top: st.top },
        TokenView::SwitchClose => {
            if st.stack.len() == 0 {
                st
            } else {
                let s = st.stack.last();
                let closed = SwitchView { options: s.options, cursor: s.cursor, write_cursor: 0 };
                add_fragment(BuildState { stack: st.stack.drop_last(), top: st.top }, FragView::Switch(closed))
            }
        },
        TokenView::SwitchNext => {
            if st.stack.len() == 0 {
                st
            } else {
                let n = st.stack.len() - 1;
                let s = st.stack[n];
                BuildState {
                    stack: st.stack.update(
                        n,
                        SwitchView { options: s.options, cursor: s.cursor, write_cursor: s.write_cursor + 1 },
                    ),
                    top: st.top,
                }
            }
        },
    }
}

/// The builder state after the first `n` tokens of `toks`.
pub open spec fn build_prefix(toks: Seq<TokenView>, n: nat) -> BuildState
    decreases n,
{
    if n == 0 || n > toks.len() {
        BuildState { stack: seq![], top: seq![] }
    } else {
        build_step(build_prefix(toks, (n - 1) as nat), toks[n - 1])
    }
}

/// The top-level fragments built from `toks`; switches left open at the end
/// are dropped.
pub open spec fn built_fragments(toks: Seq<TokenView>) -> Seq<FragView> {
    build_prefix(toks, toks.len()).top
}

/// The builder state held by a stack of open switches and the top-level
/// fragments.
pub open spec fn state_of(switches: Seq<Switch>, fragments: Seq<Fragment>) -> BuildState {
    BuildState { stack: stack_view(switches), top: frags_view(fragments) }
}

/// The views of a stack of switches.
pub open spec fn stack_view(v: Seq<Switch>) -> Seq<SwitchView> {
    v.map_values(|s: Switch| s@)
}

proof fn lemma_frags_push(v: Seq<Fragment>, f: Fragment)
    ensures
        frags_view(v.push(f)) == frags_view(v).push(f@),
{
    assert(frags_view(v.push(f)) =~= frags_view(v).push(f@));
}

proof fn lemma_fresh_push(s: SwitchView, f: FragView)
    requires
        fresh_switch(s),
        fresh_frag(f),
    ensures
        fresh_switch(push_view(s, f)),
{
    let w = s.write_cursor as int;
    let o = pad_options(s.options, w);
    assert forall|j: int| 0 <= j < o.len() implies fresh_seq(#[trigger] o[j]) by {
        if j >= s.options.len() {
            assert(o[j] =~= Seq::<FragView>::empty());
        }
    }
    let o2 = o.update(w, o[w].push(f));
    assert forall|j: int| 0 <= j < o2.len() implies fresh_seq(#[trigger] o2[j]) by {
        if j == w {
            assert forall|k: int| 0 <= k < o2[j].len() implies fresh_frag(#[trigger] o2[j][k]) by {
                if k < o[w].len() {
                    assert(o2[j][k] == o[w][k]);
                }
            }
        }
    }
}

proof fn lemma_fresh_add(st: BuildState, f: FragView)
    requires
        forall|j: int| 0 <= j < st.stack.len() ==> fresh_switch(#[trigger] st.stack[j]),
        fresh_seq(st.top),
        fresh_frag(f),
    ensures
        ({
            let r = add_fragment(st, f);
            &&& forall|j: int| 0 <= j < r.stack.len() ==> fresh_switch(#[trigger] r.stack[j])
            &&& fresh_seq(r.top)
        }),
{
    if st.stack.len() > 0 {
        lemma_fresh_push(st.stack[st.stack.len() - 1], f);
    } else {
        assert(forall|k: int| 0 <= k < st.top.len() ==> st.top.push(f)[k] == st.top[k]);
    }
}

/// Every switch the builder makes selects its first option.
proof fn lemma_build_fresh(toks: Seq<TokenView>, n: nat)
    ensures
        ({
            let st = build_prefix(toks, n);
            &&& forall|j: int| 0 <= j < st.stack.len() ==> fresh_switch(#[trigger] st.stack[j])
            &&& fresh_seq(st.top)
        }),
    decreases n,
{
    if n > 0 && n <= toks.len() {
        lemma_build_fresh(toks, (n - 1) as nat);
        let st = build_prefix(toks, (n - 1) as nat);
        match toks[n - 1] {
            TokenView::Chunk(text) => {
                lemma_fresh_add(st, FragView::Chunk(text));
            },
            TokenView::SwitchOpen => {
                assert(fresh_switch(empty_switch()));
                assert(forall|j: int| 0 <= j < st.stack.len() ==> st.stack.push(empty_switch())[j] == st.stack[j]);
            },
            TokenView::SwitchClose => {
                if st.stack.len() > 0 {
                    let s = st.stack.last();
                    let closed = SwitchView { options: s.options, cursor: s.cursor, write_cursor: 0 };
                    assert(fresh_switch(s));
                    lemma_fresh_add(BuildState { stack: st.stack.drop_last(), top: st.top }, FragView::Switch(closed));
                }
            },
            TokenView::SwitchNext => {
                if st.stack.len() > 0 {
                    assert(fresh_switch(st.stack[st.stack.len() - 1]));
                }
            },
        }
    }
}

impl Switch {
    /// A switch with no options, both cursors at 0.
    pub fn new() -> (r: Switch)
        ensures
            r@ == empty_switch(),
            r.options@.len() == 0,
    {
        let r = Switch { options: Vec::new(), ctr: 0, write_cursor: 0 };
        assert(r@.options =~= Seq::<Seq<FragView>>::empty());
        r
    }

    /// Appends `frag` to the option the write cursor points at, adding empty
    /// options first where that option does not exist yet.
    pub fn push(&mut self, frag: Fragment)
        requires
            old(self).write_cursor < usize::MAX,
        ensures
            final(self)@ == push_view(old(self)@, frag@),
    {
        let ghost o0 = self@.options;
        let w = self.write_cursor;
        while self.options.len() <= w
            invariant
                w == self.write_cursor,
                w < usize::MAX,
                self.ctr == old(self).ctr,
                self.options@.len() >= o0.len(),
                self.options@.len() == o0.len() || self.options@.len() <= w + 1,
                self@.options == o0 + Seq::new(
                    (self.options@.len() - o0.len()) as nat,
                    |i: int| Seq::<FragView>::empty(),
                ),
            decreases w + 1 - self.options.len(),
        {
            let ghost before = self@.options;
            let fresh: Vec<Fragment> = Vec::new();
            assert(frags_view(fresh@) =~= Seq::<FragView>::empty());
            self.options.push(fresh);
            assert(self@.options =~= before.push(Seq::<FragView>::empty()));
            assert(self@.options =~= o0 + Seq::new(
                (self.options@.len() - o0.len()) as nat,
                |i: int| Seq::<FragView>::empty(),
            ));
        }
        let ghost o = self@.options;
        assert(o =~= pad_options(o0, w as int));
        let ghost before = self.options@[w as int]@;
        self.options[w].push(frag);
        proof {
            lemma_frags_push(before, frag);
        }
        assert(self@.options =~= o.update(w as int, o[w as int].push(frag@)));
    }

    /// Moves the write cursor to the next option.
    pub fn bump_write_cursor(&mut self)
        requires
            old(self).write_cursor < usize::MAX,
        ensures
            final(self).write_cursor == old(self).write_cursor + 1,
            final(self).options == old(self).options,
            final(self).ctr == old(self).ctr,
    {
        self.write_cursor = self.write_cursor + 1;
    }

    /// Moves the write cursor back to the first option.
    pub fn reset(&mut self)
        ensures
            final(self).write_cursor == 0,
            final(self).options == old(self).options,
            final(self).ctr == old(self).ctr,
    {
        self.write_cursor = 0;
    }
}

/// `f` added to the innermost open switch of `switches`, or to `fragments`
/// where none is open.
fn add_built(switches: &mut Vec<Switch>, fragments: &mut Vec<Fragment>, f: Fragment)
    requires
        forall|j: int| 0 <= j < old(switches)@.len() ==> (#[trigger] old(switches)@[j]).write_cursor < usize::MAX,
    ensures
        state_of(final(switches)@, final(fragments)@) == add_fragment(
            state_of(old(switches)@, old(fragments)@),
            f@,
        ),
        final(switches)@.len() == old(switches)@.len(),
        forall|j: int|
            0 <= j < final(switches)@.len() ==> (#[trigger] final(switches)@[j]).write_cursor
                == old(switches)@[j].write_cursor,
{
    let ghost st = stack_view(switches@);
    match switches.pop() {
        Some(mut tail) => {
            tail.push(f);
            switches.push(tail);
            assert(stack_view(switches@) =~= st.update(st.len() - 1, push_view(st[st.len() - 1], f@)));
        },
        None => {
            proof {
                lemma_frags_push(fragments@, f);
            }
            fragments.push(f);
        },
    }
}

/// The pattern tree described by `tokens`: chunks become literal fragments,
/// each group a switch whose options the separators delimit.
pub fn build(tokens: &Vec<Token>) -> (r: Pattern)
    ensures
        r@ == (PatternView { fragments: built_fragments(tokens_view(tokens@)), done: false }),
{
    let ghost toks = tokens_view(tokens@);
    let n = tokens.len();
    let mut switches: Vec<Switch> = Vec::new();
    let mut fragments: Vec<Fragment> = Vec::new();
    let mut i: usize = 0;
    assert(stack_view(switches@) =~= Seq::<SwitchView>::empty());
    assert(frags_view(fragments@) =~= Seq::<FragView>::empty());
    while i < n
        invariant
            n == tokens@.len(),
            toks == tokens_view(tokens@),
            i <= n,
            state_of(switches@, fragments@) == build_prefix(toks, i as nat),
            forall|j: int| 0 <= j < switches@.len() ==> (#[trigger] switches@[j]).write_cursor <= i,
        decreases n - i,
    {
        let ghost st = build_prefix(toks, i as nat);
        assert(toks[i as int] == tokens@[i as int]@);
        assert(build_prefix(toks, (i + 1) as nat) == build_step(st, toks[i as int]));
        match &tokens[i] {
            Token::Chunk(text) => {
                let f = Fragment::Chunk(text.clone());
                add_built(&mut switches, &mut fragments, f);
            },
            Token::SwitchOpen => {
                let sw = Switch::new();
                switches.push(sw);
                assert(stack_view(switches@) =~= st.stack.push(empty_switch()));
            },
            Token::SwitchClose => {
                match switches.pop() {
                    Some(mut sw) => {
                        let ghost open = sw@;
                        sw.reset();
                        assert(sw@ == SwitchView { options: open.options, cursor: open.cursor, write_cursor: 0 });
                        assert(stack_view(switches@) =~= st.stack.drop_last());
                        add_built(&mut switches, &mut fragments, Fragment::Switch(sw));
                    },
                    None => {},
                }
            },
            Token::SwitchNext => {
                match switches.pop() {
                    Some(mut sw) => {
                        sw.bump_write_cursor();
                        switches.push(sw);
                        assert(stack_view(switches@) =~= st.stack.update(
                            st.stack.len() - 1,
                            SwitchView {
                                options: st.stack.last().options,
                                cursor: st.stack.last().cursor,
                                write_cursor: st.stack.last().write_cursor + 1,
                            },
                        ));
                    },
                    None => {},
                }
            },
        }
        i = i + 1;
    }
    Pattern { fragments, done: false }
}

impl Pattern {
    /// Parses a pattern string and builds its tree, every switch at its first
    /// option.
    pub fn from_str(s: &str) -> (r: Result<Pattern, ParseError>)
        ensures
            match r {
                Ok(p) => lex_all(s@) is Ok && p@ == (PatternView {
                    fragments: built_fragments(lex_all(s@)->Ok_0),
                    done: false,
                }) && fresh_seq(p@.fragments),
                Err(e) => lex_all(s@) == Err::<Seq<TokenView>, ParseError>(e),
            },
    {
        match parse(s) {
            Ok(tokens) => {
                let p = build(&tokens);
                proof {
                    lemma_build_fresh(tokens_view(tokens@), tokens@.len() as nat);
                }
                Ok(p)
            },
            Err(e) => Err(e),
        }
    }
}

impl std::str::FromStr for Pattern {
    type Err = ParseError;

    fn from_str(s: &str) -> Result<Pattern, ParseError> {
        Pattern::from_str(s)
    }
}

/// A text written with every character escaped builds the tree made of that
/// text as its single literal fragment (no fragment where it is empty).
pub proof fn lemma_escaped_text_builds_one_chunk(t: Seq<char>)
    ensures
        lex_all(escape_all(t)) is Ok,
        built_fragments(lex_all(escape_all(t))->Ok_0) == if t.len() == 0 {
            Seq::<FragView>::empty()
        } else {
            seq![FragView::Chunk(t)]
        },
{
    lemma_escaped_text_is_literal(t);
    let toks = flush(t);
    if t.len() > 0 {
        assert(build_prefix(toks, 1) == build_step(build_prefix(toks, 0), toks[0]));
        assert(seq![].push(FragView::Chunk(t)) =~= seq![FragView::Chunk(t)]);
    }
}

} // verus!
