//! Properties of the decoder over whole byte streams.

use vstd::prelude::*;

use crate::command::{le_u32, CommandView};
use crate::parser::{
    emitted, load, next, ParserView, State, ADDRESS_SIZE, BUFFER_SIZE, CODE_ERASE_PAGE, CODE_INFO,
    CODE_PING, CODE_RESET, CODE_WRITE_PAGE, ESCAPE, PAGE_SIZE,
};

verus! {

/// The state reached from `v` by receiving the bytes of `s` in order.
pub open spec fn run(v: ParserView, s: Seq<u8>) -> ParserView
    decreases s.len(),
{
    if s.len() == 0 {
        v
    } else {
        next(run(v, s.drop_last()), s.last())
    }
}

/// Whether receiving the bytes of `s` in order from `v` emits no command.
pub open spec fn quiet(v: ParserView, s: Seq<u8>) -> bool
    decreases s.len(),
{
    s.len() == 0 || (quiet(v, s.drop_last()) && emitted(run(v, s.drop_last()), s.last()) is None)
}

/// The data bytes `s` as sent on the wire: every escape byte doubled.
pub open spec fn escaped(s: Seq<u8>) -> Seq<u8>
    decreases s.len(),
{
    if s.len() == 0 {
        Seq::empty()
    } else if s.last() == ESCAPE {
        escaped(s.drop_last()) + seq![ESCAPE, ESCAPE]
    } else {
        escaped(s.drop_last()).push(s.last())
    }
}

/// Receiving `a` and then `b` is receiving `a + b`.
pub proof fn lemma_run_append(v: ParserView, a: Seq<u8>, b: Seq<u8>)
    ensures
        run(v, a + b) == run(run(v, a), b),
        quiet(v, a + b) == (quiet(v, a) && quiet(run(v, a), b)),
    decreases b.len(),
{
    if b.len() == 0 {
        assert(a + b =~= a);
    } else {
        assert((a + b).drop_last() =~= a + b.drop_last());
        assert((a + b).last() == b.last());
        lemma_run_append(v, a, b.drop_last());
    }
}

proof fn lemma_run_push(v: ParserView, s: Seq<u8>, x: u8)
    ensures
        run(v, s.push(x)) == next(run(v, s), x),
        quiet(v, s.push(x)) == (quiet(v, s) && emitted(run(v, s), x) is None),
{
    assert(s.push(x).drop_last() =~= s);
    assert(s.push(x).last() == x);
}

proof fn lemma_run_one(v: ParserView, x: u8)
    ensures
        run(v, seq![x]) == next(v, x),
        quiet(v, seq![x]) == (emitted(v, x) is None),
{
    let one = seq![x];
    assert(one.drop_last() =~= Seq::<u8>::empty());
    assert(one.last() == x);
    assert(run(v, Seq::<u8>::empty()) == v);
    assert(quiet(v, Seq::<u8>::empty()));
}

proof fn lemma_run_two(v: ParserView, x: u8, y: u8)
    ensures
        run(v, seq![x, y]) == next(next(v, x), y),
        quiet(v, seq![x, y]) == (emitted(v, x) is None && emitted(next(v, x), y) is None),
{
    lemma_run_one(v, x);
    lemma_run_push(v, seq![x], y);
    assert(seq![x].push(y) =~= seq![x, y]);
}

/// A data byte received while loading emits nothing and is appended to the
/// buffer, unless the buffer is full.
pub proof fn lemma_data_byte(v: ParserView, b: u8)
    requires
        v.state == State::Loading,
        b != ESCAPE,
    ensures
        emitted(v, b) is None,
        next(v, b).state == State::Loading,
        v.buffered.len() < BUFFER_SIZE ==> next(v, b).buffered == v.buffered.push(b),
        v.buffered.len() >= BUFFER_SIZE ==> next(v, b).buffered == v.buffered,
{
}

/// A doubled escape byte received while loading emits nothing and loads one
/// literal escape byte.
pub proof fn lemma_doubled_escape(v: ParserView)
    requires
        v.state == State::Loading,
    ensures
        quiet(v, seq![ESCAPE, ESCAPE]),
        run(v, seq![ESCAPE, ESCAPE]) == (ParserView { state: State::Loading, buffered: load(v.buffered, ESCAPE) }),
{
    lemma_run_two(v, ESCAPE, ESCAPE);
}

/// Data sent with its escape bytes doubled arrives in the buffer unchanged,
/// and emits nothing, as long as it fits.
pub proof fn lemma_escaped_data(v: ParserView, s: Seq<u8>)
    requires
        v.state == State::Loading,
        v.buffered.len() + s.len() <= BUFFER_SIZE,
    ensures
        quiet(v, escaped(s)),
        run(v, escaped(s)) == (ParserView { state: State::Loading, buffered: v.buffered + s }),
    decreases s.len(),
{
    if s.len() == 0 {
        assert(v.buffered + s =~= v.buffered);
        assert(quiet(v, Seq::<u8>::empty()));
    } else {
        let t = s.drop_last();
        lemma_escaped_data(v, t);
        let w = run(v, escaped(t));
        assert((v.buffered + t).push(s.last()) =~= v.buffered + s);
        if s.last() == ESCAPE {
            assert(escaped(s) == escaped(t) + seq![ESCAPE, ESCAPE]);
            lemma_run_append(v, escaped(t), seq![ESCAPE, ESCAPE]);
            lemma_run_two(w, ESCAPE, ESCAPE);
        } else {
            assert(escaped(s) =~= escaped(t) + seq![s.last()]);
            lemma_run_append(v, escaped(t), seq![s.last()]);
            lemma_run_one(w, s.last());
        }
    }
}

/// Four address bytes, sent escaped and followed by the erase code, decode to
/// an erase of the little-endian address; the buffer is empty afterwards.
pub proof fn lemma_erase_page(v: ParserView, addr: Seq<u8>)
    requires
        v.state == State::Loading,
        addr.len() == ADDRESS_SIZE,
        v.buffered.len() + ADDRESS_SIZE <= BUFFER_SIZE,
    ensures
        quiet(v, escaped(addr).push(ESCAPE)),
        emitted(run(v, escaped(addr).push(ESCAPE)), CODE_ERASE_PAGE) == Some(CommandView::ErasePage(le_u32(addr))),
        run(v, escaped(addr).push(ESCAPE).push(CODE_ERASE_PAGE)) == (ParserView { state: State::Loading, buffered: Seq::empty() }),
{
    let n = v.buffered.len() + 4;
    lemma_escaped_data(v, addr);
    lemma_run_push(v, escaped(addr), ESCAPE);
    lemma_run_push(v, escaped(addr).push(ESCAPE), CODE_ERASE_PAGE);
    assert((v.buffered + addr).subrange(n - 4, n as int) =~= addr);
}

/// An address and a page of data, sent escaped and followed by the write
/// code, decode to a write of that data at the little-endian address; the
/// buffer is empty afterwards.
pub proof fn lemma_write_page(v: ParserView, addr: Seq<u8>, data: Seq<u8>)
    requires
        v.state == State::Loading,
        addr.len() == ADDRESS_SIZE,
        data.len() == PAGE_SIZE,
        v.buffered.len() + ADDRESS_SIZE + PAGE_SIZE <= BUFFER_SIZE,
    ensures
        quiet(v, escaped(addr + data).push(ESCAPE)),
        emitted(run(v, escaped(addr + data).push(ESCAPE)), CODE_WRITE_PAGE) == Some(CommandView::WritePage(le_u32(addr), data)),
        run(v, escaped(addr + data).push(ESCAPE).push(CODE_WRITE_PAGE)) == (ParserView { state: State::Loading, buffered: Seq::empty() }),
{
    let s = addr + data;
    let n = v.buffered.len() + 516;
    lemma_escaped_data(v, s);
    lemma_run_push(v, escaped(s), ESCAPE);
    lemma_run_push(v, escaped(s).push(ESCAPE), CODE_WRITE_PAGE);
    assert((v.buffered + s).subrange(n - 516, n - 512) =~= addr);
    assert((v.buffered + s).subrange(n - 512, n as int) =~= data);
}

/// Fewer than four bytes before the erase code make a bad command, and the
/// buffer is empty afterwards.
pub proof fn lemma_short_erase(v: ParserView, s: Seq<u8>)
    requires
        v.state == State::Loading,
        v.buffered.len() + s.len() < ADDRESS_SIZE,
    ensures
        quiet(v, escaped(s).push(ESCAPE)),
        emitted(run(v, escaped(s).push(ESCAPE)), CODE_ERASE_PAGE) == Some(CommandView::BadCommand),
        run(v, escaped(s).push(ESCAPE).push(CODE_ERASE_PAGE)) == (ParserView { state: State::Loading, buffered: Seq::empty() }),
{
    lemma_escaped_data(v, s);
    lemma_run_push(v, escaped(s), ESCAPE);
    lemma_run_push(v, escaped(s).push(ESCAPE), CODE_ERASE_PAGE);
}

/// Whenever a command (or a bad command) is emitted, the buffer starts over:
/// the data that follows is all that the next command sees.
pub proof fn lemma_emission_resets(v: ParserView, b: u8, s: Seq<u8>)
    requires
        emitted(v, b) is Some,
        s.len() <= BUFFER_SIZE,
    ensures
        next(v, b) == (ParserView { state: State::Loading, buffered: Seq::empty() }),
        quiet(next(v, b), escaped(s)),
        run(next(v, b), escaped(s)).buffered == s,
{
    lemma_escaped_data(next(v, b), s);
    assert(Seq::<u8>::empty() + s =~= s);
}

/// An escape byte followed by an unknown code emits nothing and leaves the
/// buffer as it was, so the data that follows is appended to it.
pub proof fn lemma_unknown_code(v: ParserView, code: u8, s: Seq<u8>)
    requires
        v.state == State::Loading,
        code != ESCAPE,
        code != CODE_PING && code != CODE_INFO && code != CODE_RESET,
        code != CODE_ERASE_PAGE && code != CODE_WRITE_PAGE,
        v.buffered.len() + s.len() <= BUFFER_SIZE,
    ensures
        quiet(v, seq![ESCAPE, code]),
        run(v, seq![ESCAPE, code]) == v,
        quiet(v, seq![ESCAPE, code] + escaped(s)),
        run(v, seq![ESCAPE, code] + escaped(s)) == (ParserView { state: State::Loading, buffered: v.buffered + s }),
{
    lemma_run_two(v, ESCAPE, code);
    lemma_run_append(v, seq![ESCAPE, code], escaped(s));
    lemma_escaped_data(v, s);
}

/// Bytes other than the escape byte, received while loading, never emit a
/// command; as long as they fit, they are buffered in order.
pub proof fn lemma_plain_bytes(v: ParserView, s: Seq<u8>)
    requires
        v.state == State::Loading,
        forall|i: int| 0 <= i < s.len() ==> s[i] != ESCAPE,
    ensures
        quiet(v, s),
        run(v, s).state == State::Loading,
        v.buffered.len() + s.len() <= BUFFER_SIZE ==> run(v, s).buffered == v.buffered + s,
    decreases s.len(),
{
    if s.len() == 0 {
        assert(v.buffered + s =~= v.buffered);
    } else {
        let t = s.drop_last();
        assert(s == t.push(s.last()));
        lemma_plain_bytes(v, t);
        lemma_run_push(v, t, s.last());
        assert((v.buffered + t).push(s.last()) =~= v.buffered + s);
    }
}

} // verus!
