use vstd::prelude::*;
use vstd::slice::slice_subrange;
use vstd::slice::slice_to_vec;
use vstd::string::StringExecFns;
use vstd::string::StringSliceAdditionalSpecFns;

verus! {

/// The byte that ends a line.
pub const NEWLINE: u8 = 10;

/// std's I/O error, carried through unchanged from the sink.
#[verifier::external_type_specification]
#[verifier::external_body]
pub struct ExIoError(std::io::Error);

/// Relies on std::io::Write::write: on success the count is the number of
/// leading bytes of `data` taken, so it is at most the length of `data`.
#[verifier::external_body]
fn sink_write<W: std::io::Write>(w: &mut W, data: &[u8]) -> (r: std::io::Result<usize>)
    ensures
        r matches Ok(n) ==> n <= data@.len(),
{
    w.write(data)
}

/// Relies on std::io::Write::flush; nothing is assumed of its outcome.
#[verifier::external_body]
fn sink_flush<W: std::io::Write>(w: &mut W) -> std::io::Result<()> {
    w.flush()
}

/// Relies on std::io::Error's `From<ErrorKind>`: builds the error reported when
/// the sink takes no byte of a pending indent during a flush.
#[verifier::external_body]
fn write_zero_error() -> std::io::Error {
    std::io::Error::from(std::io::ErrorKind::WriteZero)
}

/// Where the adapter stands in the byte stream.
#[derive(Clone, Copy, Debug, PartialEq, Eq, Structural)]
pub enum IndentState {
    /// Inside a line: bytes are forwarded until a newline.
    MidLine,
    /// An indent is owed before the next non-empty line; newlines pass as they are.
    NeedIndent,
    /// The bytes `start..end` of the materialized indent are still to be sent.
    WritingIndent(usize, usize),
}

/// `unit` repeated `n` times.
pub open spec fn repeat(unit: Seq<u8>, n: nat) -> Seq<u8>
    decreases n,
{
    if n == 0 {
        Seq::empty()
    } else {
        repeat(unit, (n - 1) as nat) + unit
    }
}

/// The part `start..end` of `ind`, with both ends clamped to `ind`.
pub open spec fn pending(ind: Seq<u8>, start: int, end: int) -> Seq<u8> {
    let e = if end <= ind.len() { end } else { ind.len() as int };
    let s = if start <= e { start } else { e };
    ind.subrange(s, e)
}

/// The state after a byte `b` that was written inside a line.
pub open spec fn next_state(b: u8) -> IndentState {
    if b == NEWLINE {
        IndentState::NeedIndent
    } else {
        IndentState::MidLine
    }
}

/// What the sink receives for `input` when the adapter starts in `st` with the
/// materialized indent `ind` and every byte offered is taken.
pub open spec fn render(st: IndentState, ind: Seq<u8>, input: Seq<u8>) -> Seq<u8>
    decreases input.len(), if st is WritingIndent { 1nat } else { 0nat },
{
    match st {
        IndentState::WritingIndent(s, e) => pending(ind, s as int, e as int) + render(
            IndentState::MidLine,
            ind,
            input,
        ),
        IndentState::MidLine => if input.len() == 0 {
            Seq::empty()
        } else {
            seq![input[0]] + render(next_state(input[0]), ind, input.drop_first())
        },
        IndentState::NeedIndent => if input.len() == 0 {
            Seq::empty()
        } else if input[0] == NEWLINE {
            seq![input[0]] + render(IndentState::NeedIndent, ind, input.drop_first())
        } else {
            ind + seq![input[0]] + render(IndentState::MidLine, ind, input.drop_first())
        },
    }
}

/// The line state once `n` bytes of `buf` have been taken from `before` and
/// no indent is being sent: a taken byte sets it; with nothing taken it is the
/// state in which the first byte of `buf` is handled.
pub open spec fn settled_state(before: IndentState, buf: Seq<u8>, n: int) -> IndentState {
    if n > 0 {
        next_state(buf[n - 1])
    } else if buf.len() > 0 {
        next_state(buf[0])
    } else if before is WritingIndent {
        IndentState::MidLine
    } else {
        before
    }
}

/// Having sent `out` and moved from `before` to `after`, with `rest` of
/// `input` still to come, the adapter goes on exactly as it would have from
/// `before`, whatever follows.
pub open spec fn continues_as(
    before: IndentState,
    ind: Seq<u8>,
    input: Seq<u8>,
    out: Seq<u8>,
    after: IndentState,
    rest: Seq<u8>,
) -> bool {
    forall|x: Seq<u8>| #[trigger]
        render(before, ind, input + x) == out + render(after, ind, rest + x)
}

/// The bytes added to `old` to give `new`, when `old` is a prefix of `new`.
pub open spec fn added(old: Seq<u8>, new: Seq<u8>) -> Seq<u8> {
    new.subrange(old.len() as int, new.len() as int)
}

/// `new` starts with `old`.
pub open spec fn extends(old: Seq<u8>, new: Seq<u8>) -> bool {
    old.len() <= new.len() && new.subrange(0, old.len() as int) == old
}

/// `piece` is a stretch of consecutive bytes of `ind`.
pub open spec fn within(piece: Seq<u8>, ind: Seq<u8>) -> bool {
    exists|a: int|
        0 <= a && a + piece.len() <= ind.len() && #[trigger] ind.subrange(a, a + piece.len())
            == piece
}

/// At most how many write calls into the sink one `write` of `buf` makes
/// from `st`: the calls that drain an indent, then one for the caller's bytes.
pub open spec fn call_budget(st: IndentState, buf: Seq<u8>, ind: Seq<u8>) -> nat {
    match st {
        IndentState::WritingIndent(s, e) => pending(ind, s as int, e as int).len() + 2,
        IndentState::MidLine => 1,
        IndentState::NeedIndent => if buf.len() > 0 && buf[0] != NEWLINE {
            ind.len() + 2
        } else {
            1
        },
    }
}

/// At most how many write calls into the sink `flush` makes from `st`.
pub open spec fn drain_budget(st: IndentState, ind: Seq<u8>) -> nat {
    match st {
        IndentState::WritingIndent(s, e) => pending(ind, s as int, e as int).len() + 1,
        _ => 0,
    }
}

/// Each call of `log` from index `from` on, but the last, offered a stretch of
/// `ind`.
pub open spec fn indent_calls_before_last(log: Seq<Seq<u8>>, from: int, ind: Seq<u8>) -> bool {
    forall|i: int| from <= i < log.len() - 1 ==> within(#[trigger] log[i], ind)
}

/// No byte of `s` is a newline.
pub open spec fn has_no_newline(s: Seq<u8>) -> bool {
    forall|i: int| 0 <= i < s.len() ==> s[i] != NEWLINE
}

/// Every byte of `s` is a newline.
pub open spec fn all_newlines(s: Seq<u8>) -> bool {
    forall|i: int| 0 <= i < s.len() ==> s[i] == NEWLINE
}

proof fn lemma_repeat_len(unit: Seq<u8>, n: nat)
    ensures
        repeat(unit, n).len() == n * unit.len(),
    decreases n,
{
    if n > 0 {
        lemma_repeat_len(unit, (n - 1) as nat);
        assert((n - 1) * unit.len() + unit.len() == n * unit.len()) by (nonlinear_arith);
    } else {
        assert(0 * unit.len() == 0);
    }
}

/// A byte that is not a newline, written inside a line, is passed on alone.
proof fn lemma_plain_line(ind: Seq<u8>, p: Seq<u8>, w: Seq<u8>)
    requires
        has_no_newline(p),
    ensures
        render(IndentState::MidLine, ind, p + w) == p + render(IndentState::MidLine, ind, w),
    decreases p.len(),
{
    if p.len() > 0 {
        assert((p + w)[0] == p[0]);
        assert((p + w).drop_first() =~= p.drop_first() + w);
        lemma_plain_line(ind, p.drop_first(), w);
        assert(p =~= seq![p[0]] + p.drop_first());
        assert(seq![p[0]] + (p.drop_first() + render(IndentState::MidLine, ind, w)) =~= p
            + render(IndentState::MidLine, ind, w));
    } else {
        assert(p + w =~= w);
        assert(p + render(IndentState::MidLine, ind, w) =~= render(IndentState::MidLine, ind, w));
    }
}

/// Newlines owed an indent pass through without one.
proof fn lemma_blank_run(ind: Seq<u8>, p: Seq<u8>, w: Seq<u8>)
    requires
        all_newlines(p),
    ensures
        render(IndentState::NeedIndent, ind, p + w) == p + render(
            IndentState::NeedIndent,
            ind,
            w,
        ),
    decreases p.len(),
{
    if p.len() > 0 {
        assert((p + w)[0] == p[0]);
        assert((p + w).drop_first() =~= p.drop_first() + w);
        lemma_blank_run(ind, p.drop_first(), w);
        assert(p =~= seq![p[0]] + p.drop_first());
        assert(seq![p[0]] + (p.drop_first() + render(IndentState::NeedIndent, ind, w)) =~= p
            + render(IndentState::NeedIndent, ind, w));
    } else {
        assert(p + w =~= w);
        assert(p + render(IndentState::NeedIndent, ind, w) =~= render(
            IndentState::NeedIndent,
            ind,
            w,
        ));
    }
}

/// One step of `render` on a byte followed by the rest.
proof fn lemma_render_cons(st: IndentState, ind: Seq<u8>, b: u8, w: Seq<u8>)
    requires
        !(st is WritingIndent),
    ensures
        render(st, ind, seq![b] + w) == if st is MidLine || b == NEWLINE {
            seq![b] + render(next_state(b), ind, w)
        } else {
            ind + seq![b] + render(IndentState::MidLine, ind, w)
        },
{
    assert((seq![b] + w)[0] == b);
    assert((seq![b] + w).drop_first() =~= w);
}

/// The first index holding a newline, if any.
pub fn find_newline(buf: &[u8]) -> (r: Option<usize>)
    ensures
        match r {
            Some(k) => k < buf@.len() && buf@[k as int] == NEWLINE && has_no_newline(
                buf@.subrange(0, k as int),
            ),
            None => has_no_newline(buf@),
        },
{
    let mut i: usize = 0;
    while i < buf.len()
        invariant
            i <= buf@.len(),
            has_no_newline(buf@.subrange(0, i as int)),
        decreases buf@.len() - i,
    {
        if buf[i] == NEWLINE {
            return Some(i);
        }
        assert(buf@.subrange(0, i + 1) =~= buf@.subrange(0, i as int).push(buf@[i as int]));
        i = i + 1;
    }
    assert(buf@.subrange(0, i as int) =~= buf@);
    None
}

/// The first index holding a byte other than a newline, if any.
pub fn find_line_start(buf: &[u8]) -> (r: Option<usize>)
    ensures
        match r {
            Some(k) => k < buf@.len() && buf@[k as int] != NEWLINE && all_newlines(
                buf@.subrange(0, k as int),
            ),
            None => all_newlines(buf@),
        },
{
    let mut i: usize = 0;
    while i < buf.len()
        invariant
            i <= buf@.len(),
            all_newlines(buf@.subrange(0, i as int)),
        decreases buf@.len() - i,
    {
        if buf[i] != NEWLINE {
            return Some(i);
        }
        assert(buf@.subrange(0, i + 1) =~= buf@.subrange(0, i as int).push(buf@[i as int]));
        i = i + 1;
    }
    assert(buf@.subrange(0, i as int) =~= buf@);
    None
}

/// Two stretches of work, one after the other, make one: what was sent in both,
/// in order, is what the adapter owed for the input they took together.
pub proof fn lemma_chain(
    s0: IndentState,
    ind: Seq<u8>,
    input: Seq<u8>,
    o1: Seq<u8>,
    s1: IndentState,
    mid: Seq<u8>,
    o2: Seq<u8>,
    s2: IndentState,
    rest: Seq<u8>,
)
    requires
        continues_as(s0, ind, input, o1, s1, mid),
        continues_as(s1, ind, mid, o2, s2, rest),
    ensures
        continues_as(s0, ind, input, o1 + o2, s2, rest),
{
    assert forall|x: Seq<u8>| #[trigger]
        render(s0, ind, input + x) == (o1 + o2) + render(s2, ind, rest + x) by {
        assert(render(s0, ind, input + x) == o1 + render(s1, ind, mid + x));
        assert(render(s1, ind, mid + x) == o2 + render(s2, ind, rest + x));
        assert(o1 + (o2 + render(s2, ind, rest + x)) =~= (o1 + o2) + render(s2, ind, rest + x));
    }
}

proof fn lemma_added_push(base: Seq<u8>, cur: Seq<u8>, p: Seq<u8>)
    requires
        extends(base, cur),
    ensures
        extends(base, cur + p),
        added(base, cur + p) == added(base, cur) + p,
{
    assert((cur + p).subrange(0, base.len() as int) =~= cur.subrange(0, base.len() as int));
    assert(added(base, cur + p) =~= added(base, cur) + p);
}

/// Bytes of a line taken up to, not including, its newline.
proof fn lemma_take_plain(ind: Seq<u8>, buf: Seq<u8>, m: int)
    requires
        0 <= m <= buf.len(),
        has_no_newline(buf.subrange(0, m)),
    ensures
        continues_as(
            IndentState::MidLine,
            ind,
            buf,
            buf.subrange(0, m),
            IndentState::MidLine,
            buf.subrange(m, buf.len() as int),
        ),
{
    let p = buf.subrange(0, m);
    let q = buf.subrange(m, buf.len() as int);
    assert forall|x: Seq<u8>| #[trigger]
        render(IndentState::MidLine, ind, buf + x) == p + render(
            IndentState::MidLine,
            ind,
            q + x,
        ) by {
        assert(buf + x =~= p + (q + x));
        lemma_plain_line(ind, p, q + x);
    }
}

/// The rest of a line taken together with its newline.
proof fn lemma_take_line(ind: Seq<u8>, buf: Seq<u8>, k: int)
    requires
        0 <= k < buf.len(),
        buf[k] == NEWLINE,
        has_no_newline(buf.subrange(0, k)),
    ensures
        continues_as(
            IndentState::MidLine,
            ind,
            buf,
            buf.subrange(0, k + 1),
            IndentState::NeedIndent,
            buf.subrange(k + 1, buf.len() as int),
        ),
{
    let p = buf.subrange(0, k);
    let q = buf.subrange(k + 1, buf.len() as int);
    assert forall|x: Seq<u8>| #[trigger]
        render(IndentState::MidLine, ind, buf + x) == buf.subrange(0, k + 1) + render(
            IndentState::NeedIndent,
            ind,
            q + x,
        ) by {
        assert(buf + x =~= p + (seq![NEWLINE] + (q + x)));
        lemma_plain_line(ind, p, seq![NEWLINE] + (q + x));
        lemma_render_cons(IndentState::MidLine, ind, NEWLINE, q + x);
        assert(buf.subrange(0, k + 1) =~= p + seq![NEWLINE]);
        assert(p + (seq![NEWLINE] + render(IndentState::NeedIndent, ind, q + x)) =~= (p
            + seq![NEWLINE]) + render(IndentState::NeedIndent, ind, q + x));
    }
}

/// Blank lines taken while an indent is owed.
proof fn lemma_take_blank(ind: Seq<u8>, buf: Seq<u8>, m: int)
    requires
        0 <= m <= buf.len(),
        all_newlines(buf.subrange(0, m)),
    ensures
        continues_as(
            IndentState::NeedIndent,
            ind,
            buf,
            buf.subrange(0, m),
            IndentState::NeedIndent,
            buf.subrange(m, buf.len() as int),
        ),
{
    let p = buf.subrange(0, m);
    let q = buf.subrange(m, buf.len() as int);
    assert forall|x: Seq<u8>| #[trigger]
        render(IndentState::NeedIndent, ind, buf + x) == p + render(
            IndentState::NeedIndent,
            ind,
            q + x,
        ) by {
        assert(buf + x =~= p + (q + x));
        lemma_blank_run(ind, p, q + x);
    }
}

/// Before a non-empty line, an owed indent is the whole materialized indent.
proof fn lemma_owed_indent(ind: Seq<u8>, buf: Seq<u8>, l: usize)
    requires
        buf.len() > 0,
        buf[0] != NEWLINE,
        l == ind.len(),
    ensures
        continues_as(
            IndentState::NeedIndent,
            ind,
            buf,
            Seq::empty(),
            IndentState::WritingIndent(0, l),
            buf,
        ),
{
    assert forall|x: Seq<u8>| #[trigger]
        render(IndentState::NeedIndent, ind, buf + x) == Seq::<u8>::empty() + render(
            IndentState::WritingIndent(0, l),
            ind,
            buf + x,
        ) by {
        assert(buf + x =~= seq![buf[0]] + (buf.drop_first() + x));
        lemma_render_cons(IndentState::NeedIndent, ind, buf[0], buf.drop_first() + x);
        lemma_render_cons(IndentState::MidLine, ind, buf[0], buf.drop_first() + x);
        assert(pending(ind, 0, l as int) =~= ind);
        assert(ind + (seq![buf[0]] + render(IndentState::MidLine, ind, buf.drop_first() + x))
            =~= ind + seq![buf[0]] + render(IndentState::MidLine, ind, buf.drop_first() + x));
        assert(Seq::<u8>::empty() + render(IndentState::WritingIndent(0, l), ind, buf + x)
            =~= render(IndentState::WritingIndent(0, l), ind, buf + x));
    }
}

/// A newline met inside a line ends it without being taken yet.
proof fn lemma_line_ends(ind: Seq<u8>, buf: Seq<u8>)
    requires
        buf.len() > 0,
        buf[0] == NEWLINE,
    ensures
        continues_as(
            IndentState::MidLine,
            ind,
            buf,
            Seq::empty(),
            IndentState::NeedIndent,
            buf,
        ),
{
    assert forall|x: Seq<u8>| #[trigger]
        render(IndentState::MidLine, ind, buf + x) == Seq::<u8>::empty() + render(
            IndentState::NeedIndent,
            ind,
            buf + x,
        ) by {
        assert(buf + x =~= seq![NEWLINE] + (buf.drop_first() + x));
        lemma_render_cons(IndentState::MidLine, ind, NEWLINE, buf.drop_first() + x);
        lemma_render_cons(IndentState::NeedIndent, ind, NEWLINE, buf.drop_first() + x);
        assert(Seq::<u8>::empty() + render(IndentState::NeedIndent, ind, buf + x) =~= render(
            IndentState::NeedIndent,
            ind,
            buf + x,
        ));
    }
}

/// Part of a pending indent taken by the sink.
proof fn lemma_indent_sent(
    ind: Seq<u8>,
    input: Seq<u8>,
    s: usize,
    e: usize,
    start: usize,
    end: usize,
    n: usize,
)
    requires
        end == (if e <= ind.len() { e as int } else { ind.len() as int }),
        start == (if s <= end { s } else { end }),
        start + n <= end,
    ensures
        n == end - start ==> continues_as(
            IndentState::WritingIndent(s, e),
            ind,
            input,
            ind.subrange(start as int, start + n),
            IndentState::MidLine,
            input,
        ),
        n < end - start ==> continues_as(
            IndentState::WritingIndent(s, e),
            ind,
            input,
            ind.subrange(start as int, start + n),
            IndentState::WritingIndent((start + n) as usize, e),
            input,
        ),
{
    let p = ind.subrange(start as int, start + n);
    assert(pending(ind, s as int, e as int) =~= p + ind.subrange(start + n, end as int));
    assert forall|x: Seq<u8>| #[trigger]
        render(IndentState::WritingIndent(s, e), ind, input + x) == p + render(
            IndentState::WritingIndent((start + n) as usize, e),
            ind,
            input + x,
        ) by {
        assert(pending(ind, start + n, e as int) =~= ind.subrange(start + n, end as int));
        assert(p + (ind.subrange(start + n, end as int) + render(
            IndentState::MidLine,
            ind,
            input + x,
        )) =~= p + ind.subrange(start + n, end as int) + render(
            IndentState::MidLine,
            ind,
            input + x,
        ));
    }
    if n == end - start {
        assert forall|x: Seq<u8>| #[trigger]
            render(IndentState::WritingIndent(s, e), ind, input + x) == p + render(
                IndentState::MidLine,
                ind,
                input + x,
            ) by {
            assert(p =~= pending(ind, s as int, e as int));
        }
    }
}

proof fn lemma_continues_refl(st: IndentState, ind: Seq<u8>, input: Seq<u8>)
    ensures
        continues_as(st, ind, input, Seq::empty(), st, input),
{
    assert forall|x: Seq<u8>| #[trigger]
        render(st, ind, input + x) == Seq::<u8>::empty() + render(st, ind, input + x) by {
        assert(Seq::<u8>::empty() + render(st, ind, input + x) =~= render(st, ind, input + x));
    }
}

/// Raising the level and lowering it again gives back the materialized indent
/// byte for byte: one unit is appended and exactly its length in bytes is cut.
pub proof fn lemma_raise_then_lower(unit: Seq<u8>, level: nat)
    ensures
        repeat(unit, level + 1) == repeat(unit, level) + unit,
        repeat(unit, level + 1).subrange(0, repeat(unit, level + 1).len() - unit.len())
            == repeat(unit, level),
        repeat(unit, level).len() == level * unit.len(),
{
    lemma_repeat_len(unit, level);
    assert(repeat(unit, level + 1) == repeat(unit, level) + unit);
    assert((repeat(unit, level) + unit).subrange(0, repeat(unit, level).len() as int)
        =~= repeat(unit, level));
}

/// A line with no byte before its newline is passed on without an indent, at
/// any level, whether a line was open or an indent was owed.
pub proof fn lemma_blank_line_unindented(st: IndentState, ind: Seq<u8>, rest: Seq<u8>)
    requires
        !(st is WritingIndent),
    ensures
        render(st, ind, seq![NEWLINE] + rest) == seq![NEWLINE] + render(
            IndentState::NeedIndent,
            ind,
            rest,
        ),
{
    lemma_render_cons(st, ind, NEWLINE, rest);
}

/// Once all the input taken by a run of writes has been sent and no indent is
/// left pending, what the sink got is the indented input itself: how the input
/// was cut into writes and how little the sink took per call do not show.
pub proof fn lemma_output_whole(
    st: IndentState,
    ind: Seq<u8>,
    input: Seq<u8>,
    out: Seq<u8>,
    after: IndentState,
)
    requires
        continues_as(st, ind, input, out, after, Seq::empty()),
        !(after is WritingIndent),
    ensures
        out == render(st, ind, input),
{
    let nothing = Seq::<u8>::empty();
    assert(render(st, ind, input + nothing) == out + render(after, ind, nothing + nothing));
    assert(input + nothing =~= input);
    assert(nothing + nothing =~= nothing);
    assert(out + nothing =~= out);
}

/// The line state once all of `input` has been taken from `st`, with no
/// indent left pending: the last byte taken sets it.
pub open spec fn line_state_after(st: IndentState, input: Seq<u8>) -> IndentState {
    if input.len() > 0 {
        next_state(input.last())
    } else if st is WritingIndent {
        IndentState::MidLine
    } else {
        st
    }
}

/// The state that `write` settles in after taking `n > 0` bytes is the line
/// state after those bytes, and line states compose over successive writes.
pub proof fn lemma_settled_composes(
    before: IndentState,
    buf: Seq<u8>,
    n: int,
    earlier: Seq<u8>,
)
    requires
        0 < n <= buf.len(),
    ensures
        settled_state(before, buf, n) == line_state_after(before, buf.subrange(0, n)),
        line_state_after(before, earlier + buf.subrange(0, n)) == line_state_after(
            line_state_after(before, earlier),
            buf.subrange(0, n),
        ),
{
    let p = buf.subrange(0, n);
    assert(p.last() == buf[n - 1]);
    assert((earlier + p).len() == earlier.len() + n);
    assert((earlier + p)[earlier.len() + n - 1] == p[n - 1]);
    assert((earlier + p).last() == buf[n - 1]);
}

/// Across a change of level between writes, what the sink got is fixed by the
/// bytes taken at each level and the two indents alone: a run cut into writes
/// of any size, over a sink that takes any amount per call, sends the same
/// bytes, once each stretch has been taken whole with no indent pending and
/// the line state at the change is the one its last taken byte sets.
pub proof fn lemma_level_change_output(
    st: IndentState,
    first_ind: Seq<u8>,
    first: Seq<u8>,
    first_out: Seq<u8>,
    mid: IndentState,
    second_ind: Seq<u8>,
    second: Seq<u8>,
    second_out: Seq<u8>,
    last: IndentState,
)
    requires
        continues_as(st, first_ind, first, first_out, mid, Seq::empty()),
        continues_as(mid, second_ind, second, second_out, last, Seq::empty()),
        mid == line_state_after(st, first),
        !(mid is WritingIndent),
        !(last is WritingIndent),
    ensures
        first_out + second_out == render(st, first_ind, first) + render(
            line_state_after(st, first),
            second_ind,
            second,
        ),
{
    lemma_output_whole(st, first_ind, first, first_out, mid);
    lemma_output_whole(mid, second_ind, second, second_out, last);
}

/// A non-empty stretch of a line with no newline, at the start of a line,
/// gets the indent in front of it.
proof fn lemma_line_start(ind: Seq<u8>, p: Seq<u8>, w: Seq<u8>)
    requires
        p.len() > 0,
        has_no_newline(p),
    ensures
        render(IndentState::NeedIndent, ind, p + w) == ind + p + render(
            IndentState::MidLine,
            ind,
            w,
        ),
{
    let t = p.drop_first();
    assert(p + w =~= seq![p[0]] + (t + w));
    lemma_render_cons(IndentState::NeedIndent, ind, p[0], t + w);
    lemma_plain_line(ind, t, w);
    assert(p =~= seq![p[0]] + t);
    assert(ind + seq![p[0]] + (t + render(IndentState::MidLine, ind, w)) =~= ind + p + render(
        IndentState::MidLine,
        ind,
        w,
    ));
}

/// Two adapters, one writing into the other, indent each non-empty line with
/// the outer indent followed by the inner one, as a single adapter with both
/// would; the inner indent must hold no newline.
pub proof fn lemma_nested(outer: Seq<u8>, inner: Seq<u8>, x: Seq<u8>)
    requires
        has_no_newline(inner),
    ensures
        render(IndentState::NeedIndent, outer, render(IndentState::NeedIndent, inner, x))
            == render(IndentState::NeedIndent, outer + inner, x),
        render(IndentState::MidLine, outer, render(IndentState::MidLine, inner, x)) == render(
            IndentState::MidLine,
            outer + inner,
            x,
        ),
    decreases x.len(),
{
    if x.len() > 0 {
        let b = x[0];
        let y = x.drop_first();
        lemma_nested(outer, inner, y);
        assert(x =~= seq![b] + y);
        let nb = next_state(b);
        lemma_render_cons(IndentState::MidLine, outer, b, render(nb, inner, y));
        lemma_render_cons(IndentState::MidLine, outer + inner, b, y);
        lemma_render_cons(IndentState::MidLine, inner, b, y);
        lemma_render_cons(IndentState::NeedIndent, outer + inner, b, y);
        lemma_render_cons(IndentState::NeedIndent, inner, b, y);
        if b == NEWLINE {
            lemma_render_cons(
                IndentState::NeedIndent,
                outer,
                b,
                render(IndentState::NeedIndent, inner, y),
            );
        } else {
            let r = render(IndentState::MidLine, inner, y);
            let p = inner + seq![b];
            assert forall|i: int| 0 <= i < p.len() implies p[i] != NEWLINE by {
                if i < inner.len() {
                    assert(p[i] == inner[i]);
                }
            }
            lemma_line_start(outer, p, r);
            assert(inner + seq![b] + r =~= p + r);
            assert(outer + p + render(IndentState::MidLine, outer, r) =~= (outer + inner) + seq![b]
                + render(IndentState::MidLine, outer, r));
        }
    } else {
        assert(render(IndentState::NeedIndent, inner, x) =~= x);
        assert(render(IndentState::MidLine, inner, x) =~= x);
    }
}

/// How far the work of one write call is from its end.
spec fn rank(st: IndentState, buf: Seq<u8>, ind: Seq<u8>) -> nat {
    let at_blank = buf.len() > 0 && buf[0] == NEWLINE;
    match st {
        IndentState::MidLine => if at_blank { 1 } else { 0 },
        IndentState::NeedIndent => if at_blank { 0 } else { ind.len() + 2 },
        IndentState::WritingIndent(s, e) => pending(ind, s as int, e as int).len() + if at_blank {
            2nat
        } else {
            1nat
        },
    }
}

/// An adapter over a byte sink that puts `level` copies of an indent unit in
/// front of every non-empty line written through it.
#[derive(Clone)]
pub struct IndentWriter<W> {
    writer: W,
    indent: String,
    unit: Vec<u8>,
    indent_level: u16,
    required_indent: Vec<u8>,
    state: IndentState,
    sent: Ghost<Seq<u8>>,
    refused: Ghost<bool>,
    short: Ghost<bool>,
    sink_error: Ghost<Option<std::io::Error>>,
    flushed: Ghost<bool>,
    log: Ghost<Seq<Seq<u8>>>,
    taken: Ghost<nat>,
    flushes: Ghost<nat>,
}

impl<W> IndentWriter<W> {
    /// The bytes of one indent unit.
    pub closed spec fn unit(&self) -> Seq<u8> {
        self.unit@
    }

    /// The indent unit as text.
    pub closed spec fn indent_text(&self) -> Seq<char> {
        self.indent@
    }

    /// The number of indent units in front of each non-empty line.
    pub closed spec fn level(&self) -> nat {
        self.indent_level as nat
    }

    /// The indent put in front of the next non-empty line.
    pub closed spec fn indent_buf(&self) -> Seq<u8> {
        self.required_indent@
    }

    /// Where the adapter stands in the byte stream.
    pub closed spec fn state(&self) -> IndentState {
        self.state
    }

    /// Every byte the sink has taken from this adapter.
    pub closed spec fn sent(&self) -> Seq<u8> {
        self.sent@
    }

    /// Whether the last offer of bytes to the sink was refused whole.
    pub closed spec fn refused(&self) -> bool {
        self.refused@
    }

    /// Whether the sink took less than all of the last offer of bytes.
    pub closed spec fn short(&self) -> bool {
        self.short@
    }

    /// Whether the last call into the sink returned an error.
    pub closed spec fn failed(&self) -> bool {
        self.sink_error@ is Some
    }

    /// The error of the last call into the sink, if it failed.
    pub closed spec fn sink_error(&self) -> Option<std::io::Error> {
        self.sink_error@
    }

    /// The bytes offered in each write call made into the sink, in order.
    pub closed spec fn log(&self) -> Seq<Seq<u8>> {
        self.log@
    }

    /// How many flush calls have been made into the sink.
    pub closed spec fn flushes(&self) -> nat {
        self.flushes@
    }

    /// Whether the last call into the sink was a flush that succeeded.
    pub closed spec fn flushed(&self) -> bool {
        self.flushed@
    }

    /// The bytes handed to the sink in the last write call into it.
    pub closed spec fn offered(&self) -> Seq<u8> {
        if self.log@.len() > 0 {
            self.log@.last()
        } else {
            Seq::empty()
        }
    }

    /// The count the sink returned from its last successful write.
    pub closed spec fn taken(&self) -> nat {
        self.taken@
    }

    /// How many write calls have been made into the sink.
    pub closed spec fn calls(&self) -> nat {
        self.log@.len()
    }

    /// The wrapped sink.
    pub closed spec fn inner(&self) -> W {
        self.writer
    }

    /// The materialized indent is the unit repeated `level` times.
    pub open spec fn wf(&self) -> bool {
        self.indent_buf() == repeat(self.unit(), self.level())
    }

    /// Same unit, level and materialized indent.
    pub open spec fn same_config(&self, other: &Self) -> bool {
        &&& self.unit() == other.unit()
        &&& self.indent_text() == other.indent_text()
        &&& self.level() == other.level()
        &&& self.indent_buf() == other.indent_buf()
    }

    /// Creates an adapter at level 0 that owes an indent to the first line.
    pub fn new(indent: &str, writer: W) -> (r: Self)
        ensures
            r.wf(),
            r.unit() == indent.spec_bytes(),
            r.indent_text() == indent@,
            r.level() == 0,
            r.indent_buf() == Seq::<u8>::empty(),
            r.state() == IndentState::NeedIndent,
            r.sent() == Seq::<u8>::empty(),
            r.inner() == writer,
    {
        IndentWriter {
            writer,
            indent: String::from_str(indent),
            unit: slice_to_vec(indent.as_bytes()),
            indent_level: 0,
            required_indent: Vec::new(),
            state: IndentState::NeedIndent,
            sent: Ghost(Seq::empty()),
            refused: Ghost(false),
            short: Ghost(false),
            sink_error: Ghost(None),
            flushed: Ghost(false),
            log: Ghost(Seq::empty()),
            taken: Ghost(0),
            flushes: Ghost(0),
        }
    }

    /// Raises the level by one, saturating at the largest level.
    pub fn inc(&mut self)
        requires
            old(self).wf(),
        ensures
            final(self).wf(),
            final(self).level() == if old(self).level() < u16::MAX {
                old(self).level() + 1
            } else {
                old(self).level()
            },
            old(self).level() < u16::MAX ==> final(self).indent_buf() == old(self).indent_buf()
                + old(self).unit(),
            old(self).level() == u16::MAX ==> final(self).indent_buf() == old(self).indent_buf(),
            final(self).unit() == old(self).unit(),
            final(self).indent_text() == old(self).indent_text(),
            final(self).state() == old(self).state(),
            final(self).sent() == old(self).sent(),
            final(self).inner() == old(self).inner(),
    {
        if self.indent_level < u16::MAX {
            self.indent_level = self.indent_level + 1;
            self.required_indent.extend_from_slice(self.unit.as_slice());
            assert(self.required_indent@ =~= old(self).required_indent@ + self.unit@);
        }
    }

    /// Lowers the level by one; at level 0 nothing changes.
    pub fn dec(&mut self)
        requires
            old(self).wf(),
        ensures
            final(self).wf(),
            final(self).level() == if old(self).level() > 0 {
                old(self).level() - 1
            } else {
                0
            },
            old(self).level() > 0 ==> final(self).indent_buf() == old(self).indent_buf().subrange(
                0,
                old(self).indent_buf().len() - old(self).unit().len(),
            ),
            old(self).level() == 0 ==> final(self).indent_buf() == old(self).indent_buf(),
            final(self).unit() == old(self).unit(),
            final(self).indent_text() == old(self).indent_text(),
            final(self).state() == old(self).state(),
            final(self).sent() == old(self).sent(),
            final(self).inner() == old(self).inner(),
    {
        if self.indent_level > 0 {
            self.indent_level = self.indent_level - 1;
            assert(self.required_indent@ == repeat(self.unit@, self.indent_level as nat)
                + self.unit@);
            let new_len = self.required_indent.len() - self.unit.len();
            self.required_indent.truncate(new_len);
            assert(self.required_indent@ =~= repeat(self.unit@, self.indent_level as nat));
        }
    }

    /// Goes back to level 0 with an empty indent; the line state is kept.
    pub fn reset(&mut self)
        ensures
            final(self).wf(),
            final(self).level() == 0,
            final(self).indent_buf() == Seq::<u8>::empty(),
            final(self).unit() == old(self).unit(),
            final(self).indent_text() == old(self).indent_text(),
            final(self).state() == old(self).state(),
            final(self).sent() == old(self).sent(),
            final(self).inner() == old(self).inner(),
    {
        self.indent_level = 0;
        self.required_indent.clear();
    }

    /// Raises the level by one, as `inc` does. This name changes the level;
    /// the indent unit itself is read with `indent_str`.
    pub fn indent(&mut self)
        requires
            old(self).wf(),
        ensures
            final(self).wf(),
            final(self).level() == if old(self).level() < u16::MAX {
                old(self).level() + 1
            } else {
                old(self).level()
            },
            old(self).level() < u16::MAX ==> final(self).indent_buf() == old(self).indent_buf()
                + old(self).unit(),
            old(self).level() == u16::MAX ==> final(self).indent_buf() == old(self).indent_buf(),
            final(self).unit() == old(self).unit(),
            final(self).indent_text() == old(self).indent_text(),
            final(self).state() == old(self).state(),
            final(self).sent() == old(self).sent(),
            final(self).inner() == old(self).inner(),
    {
        self.inc();
    }

    /// Lowers the level by one, as `dec` does.
    pub fn outdent(&mut self)
        requires
            old(self).wf(),
        ensures
            final(self).wf(),
            final(self).level() == if old(self).level() > 0 {
                old(self).level() - 1
            } else {
                0
            },
            old(self).level() > 0 ==> final(self).indent_buf() == old(self).indent_buf().subrange(
                0,
                old(self).indent_buf().len() - old(self).unit().len(),
            ),
            old(self).level() == 0 ==> final(self).indent_buf() == old(self).indent_buf(),
            final(self).unit() == old(self).unit(),
            final(self).indent_text() == old(self).indent_text(),
            final(self).state() == old(self).state(),
            final(self).sent() == old(self).sent(),
            final(self).inner() == old(self).inner(),
    {
        self.dec();
    }

    /// Gives back the sink; a pending indent is dropped.
    pub fn into_inner(self) -> (r: W)
        ensures
            r == self.inner(),
    {
        self.writer
    }

    /// The number of indent units in front of each non-empty line.
    pub fn indent_level(&self) -> (r: u16)
        ensures
            r == self.level(),
    {
        self.indent_level
    }

    /// The sink, borrowed.
    pub fn get_ref(&self) -> (r: &W)
        ensures
            *r == self.inner(),
    {
        &self.writer
    }

    /// The indent unit as given to `new`.
    pub fn indent_str(&self) -> (r: &str)
        ensures
            r@ == self.indent_text(),
    {
        self.indent.as_str()
    }
}

impl<W: std::io::Write> IndentWriter<W> {
    /// Offers `data` to the sink and records what it took.
    fn send(&mut self, data: &[u8]) -> (r: std::io::Result<usize>)
        ensures
            final(self).same_config(old(self)),
            final(self).state() == old(self).state(),
            final(self).log() == old(self).log().push(data@),
            final(self).flushes() == old(self).flushes(),
            !final(self).flushed(),
            final(self).sink_error() == match r {
                Ok(_) => None,
                Err(e) => Some(e),
            },
            match r {
                Ok(m) => final(self).taken() == m && m <= data@.len() && final(self).sent() == old(self).sent()
                    + data@.subrange(0, m as int) && final(self).refused() == (data@.len() > 0
                    && m == 0) && final(self).short() == (m < data@.len()),
                Err(_) => final(self).sent() == old(self).sent(),
            },
    {
        let r = sink_write(&mut self.writer, data);
        let ghost offers = self.log@.push(data@);
        let ghost outcome = if r is Err {
            Some(r->Err_0)
        } else {
            None
        };
        self.log = Ghost(offers);
        self.flushed = Ghost(false);
        self.sink_error = Ghost(outcome);
        if let Ok(m) = r {
            self.taken = Ghost(m as nat);
            self.sent = Ghost(self.sent@ + data@.subrange(0, m as int));
            let ghost none_taken = data@.len() > 0 && m == 0;
            let ghost some_left = m < data@.len();
            self.refused = Ghost(none_taken);
            self.short = Ghost(some_left);
        }
        r
    }

    /// Offers the pending part of the indent to the sink once.
    fn send_indent(&mut self, s: usize, e: usize) -> (r: std::io::Result<(usize, usize, usize)>)
        requires
            old(self).state() == IndentState::WritingIndent(s, e),
        ensures
            final(self).same_config(old(self)),
            final(self).state() == old(self).state(),
            final(self).calls() == old(self).calls() + 1,
            final(self).log() == old(self).log().push(final(self).log().last()),
            within(final(self).log().last(), old(self).indent_buf()),
            final(self).flushes() == old(self).flushes(),
            !final(self).flushed(),
            final(self).sink_error() == match r {
                Ok(_) => None,
                Err(e) => Some(e),
            },
            match r {
                Ok((n, start, end)) => {
                    let ind = old(self).indent_buf();
                    &&& end == (if e <= ind.len() { e as int } else { ind.len() as int })
                    &&& start == (if s <= end { s } else { end })
                    &&& start + n <= end
                    &&& final(self).sent() == old(self).sent() + ind.subrange(
                        start as int,
                        start + n,
                    )
                    &&& final(self).refused() == (start < end && n == 0)
                    &&& final(self).short() == (start + n < end)
                    &&& final(self).taken() == n
                    &&& final(self).offered() == ind.subrange(start as int, end as int)
                },
                Err(_) => final(self).sent() == old(self).sent(),
            },
    {
        let len = self.required_indent.len();
        let end = if e <= len { e } else { len };
        let start = if s <= end { s } else { end };
        let piece = slice_subrange(self.required_indent.as_slice(), start, end);
        let r = sink_write(&mut self.writer, piece);
        let ghost offers = self.log@.push(piece@);
        let ghost outcome = if r is Err {
            Some(r->Err_0)
        } else {
            None
        };
        proof {
            assert(piece@ == self.required_indent@.subrange(start as int, start + piece@.len()));
        }
        self.log = Ghost(offers);
        self.flushed = Ghost(false);
        self.sink_error = Ghost(outcome);
        match r {
            Ok(n) => {
                self.taken = Ghost(n as nat);
                proof {
                    assert(piece@.subrange(0, n as int) =~= self.required_indent@.subrange(
                        start as int,
                        start + n,
                    ));
                }
                self.sent = Ghost(self.sent@ + piece@.subrange(0, n as int));
                let ghost none_taken = start < end && n == 0;
                let ghost some_left = start + n < end;
                self.refused = Ghost(none_taken);
                self.short = Ghost(some_left);
                Ok((n, start, end))
            },
            Err(err) => Err(err),
        }
    }
}

impl<W: std::io::Write> std::io::Write for IndentWriter<W> {
    /// Writes from `buf`, indenting each non-empty line, and returns how many
    /// bytes of `buf` were taken; bytes of the indent are not counted.
    #[verifier::rlimit(80)]
    fn write(&mut self, buf: &[u8]) -> (r: std::io::Result<usize>)
        ensures
            final(self).same_config(old(self)),
            extends(old(self).sent(), final(self).sent()),
            match r {
                Ok(n) => {
                    &&& n <= buf@.len()
                    &&& continues_as(
                        old(self).state(),
                        old(self).indent_buf(),
                        buf@,
                        added(old(self).sent(), final(self).sent()),
                        final(self).state(),
                        buf@.subrange(n as int, buf@.len() as int),
                    )
                    &&& (n == 0 && buf@.len() > 0 ==> final(self).refused())
                    &&& (buf@.len() > 0 && !final(self).short() ==> 0 < n && (n == buf@.len()
                        || buf@[n - 1] == NEWLINE))
                    &&& !final(self).failed()
                    &&& ((n == final(self).taken() && final(self).offered().len() <= buf@.len()
                        && final(self).offered() == buf@.subrange(
                        0,
                        final(self).offered().len() as int,
                    )) || (n == 0 && final(self).refused()
                        && final(self).state() is WritingIndent))
                    &&& (!(final(self).state() is WritingIndent) ==> final(self).state()
                        == settled_state(old(self).state(), buf@, n as int))
                    &&& (final(self).state() is WritingIndent ==> n == 0 || (buf@[n - 1]
                        == NEWLINE && final(self).state() == IndentState::WritingIndent(
                        0,
                        old(self).indent_buf().len() as usize,
                    )))
                },
                Err(e) => final(self).sink_error() == Some(e) && continues_as(
                    old(self).state(),
                    old(self).indent_buf(),
                    buf@,
                    added(old(self).sent(), final(self).sent()),
                    final(self).state(),
                    buf@,
                ),
            },
            !(old(self).state() is WritingIndent) && all_newlines(buf@) ==> final(self).calls()
                == old(self).calls() + 1 && final(self).offered() == buf@,
            final(self).flushes() == old(self).flushes(),
            final(self).calls() > old(self).calls(),
            final(self).log().subrange(0, old(self).calls() as int) == old(self).log(),
            indent_calls_before_last(
                final(self).log(),
                old(self).calls() as int,
                old(self).indent_buf(),
            ),
            final(self).calls() <= old(self).calls() + call_budget(
                old(self).state(),
                buf@,
                old(self).indent_buf(),
            ),
            r is Ok && old(self).state() is NeedIndent && buf@.len() > 0 && buf@[0] != NEWLINE
                && final(self).state() is WritingIndent && final(self).sent() == old(self).sent()
                ==> final(self).calls() == old(self).calls() + 1 && final(self).offered()
                == old(self).indent_buf(),
    {
        let ghost s0 = self.state;
        let ghost ind = self.required_indent@;
        let ghost sent0 = self.sent@;
        proof {
            lemma_continues_refl(s0, ind, buf@);
            assert(self.sent@.subrange(0, sent0.len() as int) =~= sent0);
            assert(added(sent0, self.sent@) =~= Seq::<u8>::empty());
        }
        loop
            invariant
                self.same_config(old(self)),
                self.required_indent@ == ind,
                ind == old(self).indent_buf(),
                s0 == old(self).state(),
                sent0 == old(self).sent(),
                extends(sent0, self.sent@),
                continues_as(s0, ind, buf@, added(sent0, self.sent@), self.state, buf@),
                buf@.len() == 0 ==> if s0 is WritingIndent {
                    self.state is WritingIndent || self.state is MidLine
                } else {
                    self.state == s0
                },
                !(s0 is WritingIndent) && all_newlines(buf@) ==> !(self.state is WritingIndent)
                    && self.log@.len() == old(self).calls(),
                self.flushes@ == old(self).flushes(),
                self.log@.len() >= old(self).calls(),
                self.log@.subrange(0, old(self).calls() as int) == old(self).log(),
                forall|i: int|
                    old(self).calls() <= i < self.log@.len() ==> within(#[trigger] self.log@[i], ind),
                self.log@.len() + call_budget(self.state, buf@, ind) <= old(self).calls()
                    + call_budget(s0, buf@, ind),
                s0 is NeedIndent && buf@.len() > 0 && buf@[0] != NEWLINE ==> (self.state
                    is NeedIndent && self.log@.len() == old(self).calls()) || (self.state
                    == IndentState::WritingIndent(0, ind.len() as usize) && self.log@.len()
                    == old(self).calls()) || self.sent@.len() > sent0.len()
                    || self.state is MidLine,
            decreases rank(self.state, buf@, ind),
        {
            let ghost acc = added(sent0, self.sent@);
            let ghost cur = self.sent@;
            let ghost st = self.state;
            match self.state {
                IndentState::MidLine => match find_newline(buf) {
                    None => {
                        let r = self.send(buf);
                        proof {
                            if let Ok(m) = r {
                                assert(buf@.subrange(0, m as int).len() == m);
                                assert forall|i: int| 0 <= i < m implies buf@.subrange(
                                    0,
                                    m as int,
                                )[i] != NEWLINE by {
                                    assert(buf@.subrange(0, m as int)[i] == buf@[i]);
                                }
                                lemma_take_plain(ind, buf@, m as int);
                                lemma_chain(
                                    s0,
                                    ind,
                                    buf@,
                                    acc,
                                    st,
                                    buf@,
                                    buf@.subrange(0, m as int),
                                    self.state,
                                    buf@.subrange(m as int, buf@.len() as int),
                                );
                                lemma_added_push(sent0, cur, buf@.subrange(0, m as int));
                            }
                        }
                        return r;
                    },
                    Some(0) => {
                        self.state = IndentState::NeedIndent;
                        proof {
                            lemma_line_ends(ind, buf@);
                            lemma_chain(
                                s0,
                                ind,
                                buf@,
                                acc,
                                st,
                                buf@,
                                Seq::empty(),
                                self.state,
                                buf@,
                            );
                            assert(acc + Seq::<u8>::empty() =~= acc);
                        }
                    },
                    Some(k) => {
                        let total = buf.len();
                        assert(k < total);
                        let r = self.send(slice_subrange(buf, 0, k + 1));
                        if let Ok(m) = r {
                            if m > k {
                                self.state = IndentState::NeedIndent;
                            }
                            proof {
                                let p = buf@.subrange(0, m as int);
                                assert(buf@.subrange(0, k + 1).subrange(0, m as int) =~= p);
                                if m > k {
                                    lemma_take_line(ind, buf@, k as int);
                                } else {
                                    assert forall|i: int| 0 <= i < m implies p[i] != NEWLINE by {
                                        assert(p[i] == buf@.subrange(0, k as int)[i]);
                                    }
                                    lemma_take_plain(ind, buf@, m as int);
                                    assert(buf@.subrange(0, k as int)[0] == buf@[0]);
                                    if m > 0 {
                                        assert(buf@.subrange(0, k as int)[m - 1] == buf@[m - 1]);
                                    }
                                }
                                lemma_chain(
                                    s0,
                                    ind,
                                    buf@,
                                    acc,
                                    st,
                                    buf@,
                                    p,
                                    self.state,
                                    buf@.subrange(m as int, buf@.len() as int),
                                );
                                lemma_added_push(sent0, cur, p);
                            }
                        }
                        return r;
                    },
                },
                IndentState::NeedIndent => match find_line_start(buf) {
                    None => {
                        let r = self.send(buf);
                        proof {
                            if let Ok(m) = r {
                                let p = buf@.subrange(0, m as int);
                                assert forall|i: int| 0 <= i < m implies p[i] == NEWLINE by {
                                    assert(p[i] == buf@[i]);
                                }
                                lemma_take_blank(ind, buf@, m as int);
                                lemma_chain(
                                    s0,
                                    ind,
                                    buf@,
                                    acc,
                                    st,
                                    buf@,
                                    p,
                                    self.state,
                                    buf@.subrange(m as int, buf@.len() as int),
                                );
                                lemma_added_push(sent0, cur, p);
                            }
                        }
                        return r;
                    },
                    Some(0) => {
                        self.state = IndentState::WritingIndent(0, self.required_indent.len());
                        proof {
                            lemma_owed_indent(ind, buf@, self.required_indent.len());
                            lemma_chain(
                                s0,
                                ind,
                                buf@,
                                acc,
                                st,
                                buf@,
                                Seq::empty(),
                                self.state,
                                buf@,
                            );
                            assert(acc + Seq::<u8>::empty() =~= acc);
                        }
                    },
                    Some(k) => {
                        let r = self.send(slice_subrange(buf, 0, k));
                        if let Ok(m) = r {
                            if m >= k {
                                self.state = IndentState::WritingIndent(
                                    0,
                                    self.required_indent.len(),
                                );
                            }
                            proof {
                                let p = buf@.subrange(0, m as int);
                                assert(buf@.subrange(0, k as int).subrange(0, m as int) =~= p);
                                assert forall|i: int| 0 <= i < m implies p[i] == NEWLINE by {
                                    assert(p[i] == buf@.subrange(0, k as int)[i]);
                                }
                                lemma_take_blank(ind, buf@, m as int);
                                assert(buf@.subrange(0, k as int)[k - 1] == buf@[k - 1]);
                                assert(buf@.subrange(0, k as int)[0] == buf@[0]);
                                if m > 0 {
                                    assert(buf@.subrange(0, k as int)[m - 1] == buf@[m - 1]);
                                }
                                let rest = buf@.subrange(m as int, buf@.len() as int);
                                if m >= k {
                                    lemma_owed_indent(ind, rest, self.required_indent@.len() as usize);
                                    lemma_chain(
                                        st,
                                        ind,
                                        buf@,
                                        p,
                                        IndentState::NeedIndent,
                                        rest,
                                        Seq::empty(),
                                        self.state,
                                        rest,
                                    );
                                    assert(p + Seq::<u8>::empty() =~= p);
                                }
                                lemma_chain(s0, ind, buf@, acc, st, buf@, p, self.state, rest);
                                lemma_added_push(sent0, cur, p);
                            }
                        }
                        return r;
                    },
                },
                IndentState::WritingIndent(s, e) => {
                    let (n, start, end) = match self.send_indent(s, e) {
                        Ok(t) => t,
                        Err(err) => return Err(err),
                    };
                    let ghost p = ind.subrange(start as int, start + n);
                    if n >= end - start {
                        self.state = IndentState::MidLine;
                    } else if n > 0 {
                        self.state = IndentState::WritingIndent(start + n, e);
                    }
                    proof {
                        lemma_added_push(sent0, cur, p);
                        if n == 0 && n < end - start {
                            assert(p =~= Seq::<u8>::empty());
                            assert(acc + p =~= acc);
                            assert(buf@.subrange(0, buf@.len() as int) =~= buf@);
                        } else {
                            lemma_indent_sent(ind, buf@, s, e, start, end, n);
                            lemma_chain(s0, ind, buf@, acc, st, buf@, p, self.state, buf@);
                        }
                    }
                    if n == 0 && n < end - start {
                        return Ok(0);
                    }
                },
            }
        }
    }

    /// Sends whatever part of an indent is pending, then flushes the sink.
    fn flush(&mut self) -> (r: std::io::Result<()>)
        ensures
            final(self).same_config(old(self)),
            extends(old(self).sent(), final(self).sent()),
            continues_as(
                old(self).state(),
                old(self).indent_buf(),
                Seq::empty(),
                added(old(self).sent(), final(self).sent()),
                final(self).state(),
                Seq::empty(),
            ),
            final(self).state() is WritingIndent ==> r is Err,
            r is Ok ==> final(self).flushed() && !final(self).failed() && final(self).flushes()
                == old(self).flushes() + 1,
            match r {
                Ok(_) => true,
                Err(e) => final(self).sink_error() == Some(e) || (final(self).state() is WritingIndent
                    && final(self).refused()),
            },
            final(self).flushes() <= old(self).flushes() + 1,
            final(self).state() is WritingIndent ==> final(self).flushes() == old(self).flushes(),
            !(old(self).state() is WritingIndent) ==> final(self).log() == old(self).log(),
            final(self).calls() >= old(self).calls(),
            final(self).log().subrange(0, old(self).calls() as int) == old(self).log(),
            forall|i: int|
                old(self).calls() <= i < final(self).calls() ==> within(
                    #[trigger] final(self).log()[i],
                    old(self).indent_buf(),
                ),
            final(self).calls() <= old(self).calls() + drain_budget(
                old(self).state(),
                old(self).indent_buf(),
            ),
            !(old(self).state() is WritingIndent) ==> final(self).state() == old(self).state()
                && final(self).sent() == old(self).sent(),
    {
        let ghost s0 = self.state;
        let ghost ind = self.required_indent@;
        let ghost sent0 = self.sent@;
        let ghost nothing = Seq::<u8>::empty();
        proof {
            lemma_continues_refl(s0, ind, nothing);
            assert(self.sent@.subrange(0, sent0.len() as int) =~= sent0);
            assert(added(sent0, self.sent@) =~= nothing);
        }
        loop
            invariant
                self.same_config(old(self)),
                self.required_indent@ == ind,
                ind == old(self).indent_buf(),
                s0 == old(self).state(),
                sent0 == old(self).sent(),
                extends(sent0, self.sent@),
                continues_as(s0, ind, nothing, added(sent0, self.sent@), self.state, nothing),
                !(s0 is WritingIndent) ==> self.state == s0 && self.sent@ == sent0 && self.log@
                    == old(self).log(),
                nothing == Seq::<u8>::empty(),
                self.flushes@ == old(self).flushes(),
                self.log@.len() >= old(self).calls(),
                self.log@.subrange(0, old(self).calls() as int) == old(self).log(),
                forall|i: int|
                    old(self).calls() <= i < self.log@.len() ==> within(#[trigger] self.log@[i], ind),
                self.log@.len() + drain_budget(self.state, ind) <= old(self).calls()
                    + drain_budget(s0, ind),
            ensures
                !(self.state is WritingIndent),
            decreases
                match self.state {
                    IndentState::WritingIndent(s, e) => pending(ind, s as int, e as int).len() + 1,
                    _ => 0,
                },
        {
            let ghost acc = added(sent0, self.sent@);
            let ghost cur = self.sent@;
            let ghost st = self.state;
            match self.state {
                IndentState::WritingIndent(s, e) => {
                    let (n, start, end) = match self.send_indent(s, e) {
                        Ok(t) => t,
                        Err(err) => return Err(err),
                    };
                    let ghost p = ind.subrange(start as int, start + n);
                    if n >= end - start {
                        self.state = IndentState::MidLine;
                    } else if n > 0 {
                        self.state = IndentState::WritingIndent(start + n, e);
                    }
                    proof {
                        lemma_added_push(sent0, cur, p);
                        if n == 0 && n < end - start {
                            assert(p =~= Seq::<u8>::empty());
                            assert(acc + p =~= acc);
                        } else {
                            lemma_indent_sent(ind, nothing, s, e, start, end, n);
                            lemma_chain(s0, ind, nothing, acc, st, nothing, p, self.state, nothing);
                        }
                    }
                    if n == 0 && n < end - start {
                        return Err(write_zero_error());
                    }
                },
                _ => break,
            }
        }
        let r = sink_flush(&mut self.writer);
        let ghost good = r is Ok;
        let ghost outcome = if r is Err {
            Some(r->Err_0)
        } else {
            None
        };
        let ghost count = self.flushes@ + 1;
        self.flushed = Ghost(good);
        self.sink_error = Ghost(outcome);
        self.flushes = Ghost(count);
        r
    }
}

} // verus!
