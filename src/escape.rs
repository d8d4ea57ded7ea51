use vstd::prelude::*;

verus! {

/// Byte values the escaper treats specially.
pub const TAB: u8 = 9;
pub const LINE_FEED: u8 = 10;
pub const CARRIAGE_RETURN: u8 = 13;
pub const BACKSLASH: u8 = 92;

/// The letter that follows the backslash in the escape of a control byte.
pub open spec fn escape_letter(b: u8) -> u8 {
    if b == TAB {
        116u8
    } else if b == LINE_FEED {
        110u8
    } else {
        114u8
    }
}

/// Tab, line feed and carriage return are the bytes that get escaped.
pub open spec fn is_escaped_byte(b: u8) -> bool {
    b == TAB || b == LINE_FEED || b == CARRIAGE_RETURN
}

/// The letters `t`, `n` and `r`, which may follow a backslash in escaped text.
pub open spec fn is_escape_letter(c: u8) -> bool {
    c == 116u8 || c == 110u8 || c == 114u8
}

/// The control byte that a backslash followed by `c` stands for.
pub open spec fn control_of_letter(c: u8) -> u8 {
    if c == 116u8 {
        TAB
    } else if c == 110u8 {
        LINE_FEED
    } else {
        CARRIAGE_RETURN
    }
}

/// The escaped form of one byte: tab, line feed and carriage return become
/// a backslash followed by `t`, `n` or `r`; every other byte stands for itself.
pub open spec fn escape_byte(b: u8) -> Seq<u8> {
    if is_escaped_byte(b) {
        seq![BACKSLASH, escape_letter(b)]
    } else {
        seq![b]
    }
}

/// The escaped form of a byte sequence, byte by byte.
pub open spec fn escape(s: Seq<u8>) -> Seq<u8>
    decreases s.len(),
{
    if s.len() == 0 {
        Seq::empty()
    } else {
        escape(s.drop_last()) + escape_byte(s.last())
    }
}

/// Reverses the three substitutions, scanning from the front: a backslash
/// followed by `t`, `n` or `r` becomes the control byte, anything else is kept.
pub open spec fn unescape(t: Seq<u8>) -> Seq<u8>
    decreases t.len(),
{
    if t.len() == 0 {
        Seq::empty()
    } else if t.len() >= 2 && t[0] == BACKSLASH && is_escape_letter(t[1]) {
        seq![control_of_letter(t[1])] + unescape(t.subrange(2, t.len() as int))
    } else {
        seq![t[0]] + unescape(t.drop_first())
    }
}

/// The input holds none of the two-byte sequences that the escaper produces
/// (a backslash followed by `t`, `n` or `r`).
pub open spec fn free_of_escape_sequences(s: Seq<u8>) -> bool {
    forall|i: int|
        0 <= i < s.len() - 1 ==> !(#[trigger] s[i] == BACKSLASH && is_escape_letter(s[i + 1]))
}

/// Escaping distributes over concatenation.
pub proof fn lemma_escape_concat(a: Seq<u8>, b: Seq<u8>)
    ensures
        escape(a + b) == escape(a) + escape(b),
    decreases b.len(),
{
    if b.len() == 0 {
        assert(a + b =~= a);
        assert(escape(b) =~= Seq::<u8>::empty());
        assert(escape(a) + escape(b) =~= escape(a));
    } else {
        let ab = a + b;
        assert(ab.drop_last() =~= a + b.drop_last());
        assert(ab.last() == b.last());
        lemma_escape_concat(a, b.drop_last());
        assert(escape(a) + escape(b.drop_last()) + escape_byte(b.last()) =~= escape(a) + (escape(
            b.drop_last(),
        ) + escape_byte(b.last())));
    }
}

/// Escaping a non-empty sequence starts with the escape of its first byte.
pub proof fn lemma_escape_first(s: Seq<u8>)
    requires
        s.len() > 0,
    ensures
        escape(s) == escape_byte(s[0]) + escape(s.drop_first()),
{
    assert(s =~= seq![s[0]] + s.drop_first());
    lemma_escape_concat(seq![s[0]], s.drop_first());
    let one = seq![s[0]];
    assert(one.drop_last() =~= Seq::<u8>::empty());
    assert(escape(one.drop_last()) =~= Seq::<u8>::empty());
    assert(one.last() == s[0]);
    assert(escape(one) =~= escape_byte(s[0]));
}

/// Unescaping the escaped form of any input free of escape sequences gives
/// the input back.
pub proof fn lemma_unescape_escape(s: Seq<u8>)
    requires
        free_of_escape_sequences(s),
    ensures
        unescape(escape(s)) == s,
    decreases s.len(),
{
    if s.len() == 0 {
        assert(escape(s) =~= Seq::<u8>::empty());
    } else {
        let b = s[0];
        let rest = s.drop_first();
        assert forall|i: int| 0 <= i < rest.len() - 1 implies !(#[trigger] rest[i] == BACKSLASH
            && is_escape_letter(rest[i + 1])) by {
            assert(rest[i] == s[i + 1] && rest[i + 1] == s[i + 2]);
        }
        lemma_unescape_escape(rest);
        lemma_escape_first(s);
        let t = escape(s);
        let tail = escape(rest);
        if is_escaped_byte(b) {
            assert(t[0] == BACKSLASH && t[1] == escape_letter(b));
            assert(t.subrange(2, t.len() as int) =~= tail);
            assert(control_of_letter(escape_letter(b)) == b);
        } else {
            assert(t[0] == b);
            assert(t.drop_first() =~= tail);
            if b == BACKSLASH && t.len() >= 2 {
                lemma_escape_first(rest);
                assert(t[1] == tail[0]);
                assert(s[1] == rest[0]);
                assert(!(s[0] == BACKSLASH && is_escape_letter(s[1])));
                assert(!is_escape_letter(t[1]));
            }
        }
        assert(s =~= seq![b] + rest);
    }
}

/// Appends the escaped form of `bytes` to `out`, followed by one unescaped
/// tab that ends the field.
pub fn write_escaped(bytes: &[u8], out: &mut Vec<u8>)
    ensures
        final(out)@ == old(out)@ + escape(bytes@) + seq![TAB],
{
    let n = bytes.len();
    let mut i: usize = 0;
    while i < n
        invariant
            n == bytes@.len(),
            i <= n,
            out@ == old(out)@ + escape(bytes@.subrange(0, i as int)),
        decreases n - i,
    {
        let x = bytes[i];
        proof {
            let pre = bytes@.subrange(0, i as int);
            let next = bytes@.subrange(0, i + 1);
            assert(next.drop_last() =~= pre);
            assert(next.last() == x);
        }
        if x == TAB {
            out.push(BACKSLASH);
            out.push(116u8);
        } else if x == LINE_FEED {
            out.push(BACKSLASH);
            out.push(110u8);
        } else if x == CARRIAGE_RETURN {
            out.push(BACKSLASH);
            out.push(114u8);
        } else {
            out.push(x);
        }
        i = i + 1;
        assert(out@ =~= old(out)@ + escape(bytes@.subrange(0, i as int)));
    }
    assert(bytes@.subrange(0, n as int) =~= bytes@);
    out.push(TAB);
}

} // verus!
