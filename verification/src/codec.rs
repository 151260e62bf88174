//! The backing-file codec.
//!
//! The store is persisted as a human-editable text file with one entry per
//! line, `key=value`, terminated by a newline. Backslash, newline and the
//! separator are written as the two-character escapes `\\`, `\n` and `\=`,
//! so the format round-trips every mapping: decoding an encoded mapping
//! reproduces it exactly ([`lemma_parse_encode`]).
use vstd::prelude::*;
use vstd::string::StrSliceExecFns;

verus! {

/// The escaped form of one character.
pub open spec fn esc_char(c: char) -> Seq<char> {
    if c == '\\' {
        seq!['\\', '\\']
    } else if c == '\n' {
        seq!['\\', 'n']
    } else if c == '=' {
        seq!['\\', '=']
    } else {
        seq![c]
    }
}

/// The character an escape pair `\x` stands for, if `x` closes an escape.
pub open spec fn unesc_char(c: char) -> Option<char> {
    if c == '\\' {
        Some('\\')
    } else if c == 'n' {
        Some('\n')
    } else if c == '=' {
        Some('=')
    } else {
        None
    }
}

/// The escaped form of a string: each character replaced by its escaped form.
pub open spec fn escape(s: Seq<char>) -> Seq<char>
    decreases s.len(),
{
    if s.len() == 0 {
        Seq::empty()
    } else {
        esc_char(s[0]) + escape(s.skip(1))
    }
}

/// One encoded entry: escaped key, separator, escaped value, newline.
pub open spec fn encode_entry(k: Seq<char>, v: Seq<char>) -> Seq<char> {
    escape(k) + seq!['='] + escape(v) + seq!['\n']
}

/// The encoded form of a sequence of entries: their lines in order.
pub open spec fn encode_entries(es: Seq<(Seq<char>, Seq<char>)>) -> Seq<char>
    decreases es.len(),
{
    if es.len() == 0 {
        Seq::empty()
    } else {
        encode_entry(es[0].0, es[0].1) + encode_entries(es.skip(1))
    }
}

/// Decoding a whole document: a sequence of `key=value` lines, or nothing
/// if the text is not in the format.
pub open spec fn parse(s: Seq<char>) -> Option<Seq<(Seq<char>, Seq<char>)>>
    decreases s.len(), 1int,
{
    if s.len() == 0 {
        Some(Seq::empty())
    } else {
        parse_key(s, Seq::empty())
    }
}

/// Decoding from inside a line's key, `k` being the part already read.
pub open spec fn parse_key(s: Seq<char>, k: Seq<char>) -> Option<
    Seq<(Seq<char>, Seq<char>)>,
>
    decreases s.len(), 0int,
{
    if s.len() == 0 {
        None
    } else if s[0] == '=' {
        parse_value(s.skip(1), k, Seq::empty())
    } else if s[0] == '\n' {
        None
    } else if s[0] == '\\' {
        if s.len() >= 2 && unesc_char(s[1]) is Some {
            parse_key(s.skip(2), k.push(unesc_char(s[1])->Some_0))
        } else {
            None
        }
    } else {
        parse_key(s.skip(1), k.push(s[0]))
    }
}

/// Decoding from inside a line's value, `k` and `v` being the parts already read.
pub open spec fn parse_value(s: Seq<char>, k: Seq<char>, v: Seq<char>) -> Option<
    Seq<(Seq<char>, Seq<char>)>,
>
    decreases s.len(), 0int,
{
    if s.len() == 0 {
        None
    } else if s[0] == '\n' {
        match parse(s.skip(1)) {
            Some(rest) => Some(seq![(k, v)] + rest),
            None => None,
        }
    } else if s[0] == '=' {
        None
    } else if s[0] == '\\' {
        if s.len() >= 2 && unesc_char(s[1]) is Some {
            parse_value(s.skip(2), k, v.push(unesc_char(s[1])->Some_0))
        } else {
            None
        }
    } else {
        parse_value(s.skip(1), k, v.push(s[0]))
    }
}

/// Reading an escaped string inside a key leaves the parser where it was,
/// with the string appended to the accumulated key.
proof fn lemma_parse_key_escape(s: Seq<char>, tail: Seq<char>, k: Seq<char>)
    ensures
        parse_key(escape(s) + tail, k) == parse_key(tail, k + s),
    decreases s.len(),
{
    if s.len() == 0 {
        assert(escape(s) + tail =~= tail);
        assert(k + s =~= k);
    } else {
        let c = s[0];
        let rest = escape(s.skip(1)) + tail;
        if c == '\\' || c == '\n' || c == '=' {
            let e = esc_char(c)[1];
            assert(escape(s) + tail =~= seq!['\\', e] + rest);
            let w = seq!['\\', e] + rest;
            assert(w[0] == '\\' && w[1] == e && unesc_char(e) == Some(c));
            assert(w.skip(2) =~= rest);
            lemma_parse_key_escape(s.skip(1), tail, k.push(c));
            assert(k.push(c) + s.skip(1) =~= k + s);
        } else {
            assert(escape(s) + tail =~= seq![c] + rest);
            let w = seq![c] + rest;
            assert(w[0] == c);
            assert(w.skip(1) =~= rest);
            lemma_parse_key_escape(s.skip(1), tail, k.push(c));
            assert(k.push(c) + s.skip(1) =~= k + s);
        }
    }
}

/// Reading an escaped string inside a value leaves the parser where it was,
/// with the string appended to the accumulated value.
proof fn lemma_parse_value_escape(s: Seq<char>, tail: Seq<char>, k: Seq<char>, v: Seq<char>)
    ensures
        parse_value(escape(s) + tail, k, v) == parse_value(tail, k, v + s),
    decreases s.len(),
{
    if s.len() == 0 {
        assert(escape(s) + tail =~= tail);
        assert(v + s =~= v);
    } else {
        let c = s[0];
        let rest = escape(s.skip(1)) + tail;
        if c == '\\' || c == '\n' || c == '=' {
            let e = esc_char(c)[1];
            assert(escape(s) + tail =~= seq!['\\', e] + rest);
            let w = seq!['\\', e] + rest;
            assert(w[0] == '\\' && w[1] == e && unesc_char(e) == Some(c));
            assert(w.skip(2) =~= rest);
            lemma_parse_value_escape(s.skip(1), tail, k, v.push(c));
            assert(v.push(c) + s.skip(1) =~= v + s);
        } else {
            assert(escape(s) + tail =~= seq![c] + rest);
            let w = seq![c] + rest;
            assert(w[0] == c);
            assert(w.skip(1) =~= rest);
            lemma_parse_value_escape(s.skip(1), tail, k, v.push(c));
            assert(v.push(c) + s.skip(1) =~= v + s);
        }
    }
}

/// The codec round-trips: decoding an encoded sequence of entries gives the
/// entries back, whatever characters their keys and values hold.
pub proof fn lemma_parse_encode(es: Seq<(Seq<char>, Seq<char>)>)
    ensures
        parse(encode_entries(es)) == Some(es),
    decreases es.len(),
{
    if es.len() == 0 {
        assert(encode_entries(es).len() == 0);
        assert(Seq::<(Seq<char>, Seq<char>)>::empty() =~= es);
    } else {
        let k = es[0].0;
        let v = es[0].1;
        let doc = encode_entries(es);
        let tail1 = seq!['='] + escape(v) + seq!['\n'] + encode_entries(es.skip(1));
        assert(doc =~= escape(k) + tail1);
        assert(doc.len() > 0) by {
            assert(tail1.len() > 0);
        }
        lemma_parse_key_escape(k, tail1, Seq::empty());
        assert(Seq::empty() + k =~= k);
        assert(tail1[0] == '=');
        let tail2 = escape(v) + (seq!['\n'] + encode_entries(es.skip(1)));
        assert(tail1.skip(1) =~= tail2);
        lemma_parse_value_escape(v, seq!['\n'] + encode_entries(es.skip(1)), k, Seq::empty());
        assert(Seq::empty() + v =~= v);
        let tail3 = seq!['\n'] + encode_entries(es.skip(1));
        assert(tail3[0] == '\n');
        assert(tail3.skip(1) =~= encode_entries(es.skip(1)));
        lemma_parse_encode(es.skip(1));
        assert(seq![(k, v)] + es.skip(1) =~= es);
    }
}

/// Escaping distributes over appending one character at the end.
pub proof fn lemma_escape_push(s: Seq<char>, c: char)
    ensures
        escape(s.push(c)) == escape(s) + esc_char(c),
    decreases s.len(),
{
    if s.len() == 0 {
        let t = s.push(c);
        assert(t[0] == c);
        assert(t.skip(1) =~= Seq::<char>::empty());
        assert(escape(t.skip(1)) == Seq::<char>::empty());
        assert(escape(t) == esc_char(c) + escape(t.skip(1)));
        assert(esc_char(c) + Seq::<char>::empty() =~= esc_char(c));
        assert(escape(s) == Seq::<char>::empty());
        assert(Seq::<char>::empty() + esc_char(c) =~= esc_char(c));
    } else {
        assert(s.push(c)[0] == s[0]);
        assert(s.push(c).skip(1) =~= s.skip(1).push(c));
        lemma_escape_push(s.skip(1), c);
        assert(esc_char(s[0]) + (escape(s.skip(1)) + esc_char(c)) =~= (esc_char(s[0]) + escape(
            s.skip(1),
        )) + esc_char(c));
    }
}

/// Encoding distributes over appending one entry at the end.
pub proof fn lemma_encode_entries_push(es: Seq<(Seq<char>, Seq<char>)>, k: Seq<char>, v: Seq<char>)
    ensures
        encode_entries(es.push((k, v))) == encode_entries(es) + encode_entry(k, v),
    decreases es.len(),
{
    if es.len() == 0 {
        let t = es.push((k, v));
        assert(t[0] == (k, v));
        assert(t.skip(1) =~= Seq::<(Seq<char>, Seq<char>)>::empty());
        assert(encode_entries(t.skip(1)) == Seq::<char>::empty());
        assert(encode_entries(t) == encode_entry(k, v) + encode_entries(t.skip(1)));
        assert(encode_entry(k, v) + Seq::<char>::empty() =~= encode_entry(k, v));
        assert(encode_entries(es) == Seq::<char>::empty());
        assert(Seq::<char>::empty() + encode_entry(k, v) =~= encode_entry(k, v));
    } else {
        assert(es.push((k, v))[0] == es[0]);
        assert(es.push((k, v)).skip(1) =~= es.skip(1).push((k, v)));
        lemma_encode_entries_push(es.skip(1), k, v);
        assert(encode_entry(es[0].0, es[0].1) + (encode_entries(es.skip(1)) + encode_entry(k, v))
            =~= (encode_entry(es[0].0, es[0].1) + encode_entries(es.skip(1))) + encode_entry(k, v));
    }
}

/// Appends one character to a string.
///
/// Relies on std's `String::push`: pushing a character appends it to the
/// end of the string.
#[verifier::external_body]
pub(crate) fn push_char(s: &mut String, c: char)
    ensures
        final(s)@ == old(s)@.push(c),
{
    s.push(c);
}

/// Appends the escaped form of `s` to `out`.
fn append_escaped(out: &mut String, s: &str)
    ensures
        final(out)@ == old(out)@ + escape(s@),
{
    let n = s.unicode_len();
    let mut i: usize = 0;
    proof {
        assert(s@.subrange(0, 0) =~= Seq::<char>::empty());
        assert(old(out)@ + escape(s@.subrange(0, 0)) =~= old(out)@);
    }
    while i < n
        invariant
            i <= n,
            n == s@.len(),
            out@ == old(out)@ + escape(s@.subrange(0, i as int)),
        decreases n - i,
    {
        let c = s.get_char(i);
        if c == '\\' {
            push_char(out, '\\');
            push_char(out, '\\');
        } else if c == '\n' {
            push_char(out, '\\');
            push_char(out, 'n');
        } else if c == '=' {
            push_char(out, '\\');
            push_char(out, '=');
        } else {
            push_char(out, c);
        }
        proof {
            assert(s@.subrange(0, i + 1) =~= s@.subrange(0, i as int).push(s@[i as int]));
            lemma_escape_push(s@.subrange(0, i as int), s@[i as int]);
            assert(out@ =~= old(out)@ + escape(s@.subrange(0, i + 1)));
        }
        i = i + 1;
    }
    proof {
        assert(s@.subrange(0, n as int) =~= s@);
    }
}

/// The entries as pairs of character sequences.
pub open spec fn pairs_view(vs: Seq<(String, String)>) -> Seq<(Seq<char>, Seq<char>)> {
    vs.map_values(|p: (String, String)| (p.0@, p.1@))
}

/// Encodes a sequence of entries as the backing file's text.
pub fn encode_pairs(entries: &Vec<(String, String)>) -> (r: String)
    ensures
        r@ == encode_entries(pairs_view(entries@)),
{
    let mut out = String::new();
    let n = entries.len();
    let mut i: usize = 0;
    proof {
        assert(pairs_view(entries@).subrange(0, 0) =~= Seq::<(Seq<char>, Seq<char>)>::empty());
    }
    while i < n
        invariant
            i <= n,
            n == entries@.len(),
            out@ == encode_entries(pairs_view(entries@).subrange(0, i as int)),
        decreases n - i,
    {
        let k: &String = &entries[i].0;
        let v: &String = &entries[i].1;
        append_escaped(&mut out, k.as_str());
        push_char(&mut out, '=');
        append_escaped(&mut out, v.as_str());
        push_char(&mut out, '\n');
        proof {
            let pv = pairs_view(entries@);
            assert(pv.subrange(0, i + 1) =~= pv.subrange(0, i as int).push((k@, v@)));
            lemma_encode_entries_push(pv.subrange(0, i as int), k@, v@);
            assert(out@ =~= encode_entries(pv.subrange(0, i + 1)));
        }
        i = i + 1;
    }
    proof {
        assert(pairs_view(entries@).subrange(0, n as int) =~= pairs_view(entries@));
    }
    out
}

/// Decodes the backing file's text into its entries, in file order; `None`
/// if the text is not in the format.
pub fn decode(s: &str) -> (r: Option<Vec<(String, String)>>)
    ensures
        match r {
            Some(v) => parse(s@) == Some(pairs_view(v@)),
            None => parse(s@) is None,
        },
{
    proof {
        assert(s@.skip(0) =~= s@);
    }
    decode_entries(s, 0)
}

/// Decodes the document from position `i` on.
fn decode_entries(s: &str, i: usize) -> (r: Option<Vec<(String, String)>>)
    requires
        i <= s@.len(),
    ensures
        match r {
            Some(v) => parse(s@.skip(i as int)) == Some(pairs_view(v@)),
            None => parse(s@.skip(i as int)) is None,
        },
    decreases s@.len() - i, 1int,
{
    let n = s.unicode_len();
    if i == n {
        let r: Vec<(String, String)> = Vec::new();
        proof {
            assert(s@.skip(i as int) =~= Seq::<char>::empty());
            assert(pairs_view(r@) =~= Seq::<(Seq<char>, Seq<char>)>::empty());
        }
        Some(r)
    } else {
        decode_key(s, i, String::new())
    }
}

/// Decodes from inside a line's key, from position `i` on.
fn decode_key(s: &str, i: usize, k: String) -> (r: Option<Vec<(String, String)>>)
    requires
        i <= s@.len(),
    ensures
        match r {
            Some(v) => parse_key(s@.skip(i as int), k@) == Some(pairs_view(v@)),
            None => parse_key(s@.skip(i as int), k@) is None,
        },
    decreases s@.len() - i, 0int,
{
    let n = s.unicode_len();
    if i == n {
        return None;
    }
    let ghost w = s@.skip(i as int);
    let c = s.get_char(i);
    proof {
        assert(w[0] == s@[i as int]);
    }
    if c == '=' {
        proof {
            assert(w.skip(1) =~= s@.skip(i + 1));
        }
        decode_value(s, i + 1, k, String::new())
    } else if c == '\n' {
        None
    } else if c == '\\' {
        if i + 1 == n {
            proof {
                assert(w.len() == 1);
            }
            return None;
        }
        let e = s.get_char(i + 1);
        proof {
            assert(w[1] == s@[i + 1]);
        }
        let u: Option<char> = if e == '\\' {
            Some('\\')
        } else if e == 'n' {
            Some('\n')
        } else if e == '=' {
            Some('=')
        } else {
            None
        };
        proof {
            assert(u == unesc_char(e));
        }
        match u {
            None => None,
            Some(c2) => {
                let mut k2 = k;
                push_char(&mut k2, c2);
                proof {
                    assert(w.skip(2) =~= s@.skip(i + 2));
                }
                decode_key(s, i + 2, k2)
            },
        }
    } else {
        let mut k2 = k;
        push_char(&mut k2, c);
        proof {
            assert(w.skip(1) =~= s@.skip(i + 1));
        }
        decode_key(s, i + 1, k2)
    }
}

/// Decodes from inside a line's value, from position `i` on.
fn decode_value(s: &str, i: usize, k: String, v: String) -> (r: Option<Vec<(String, String)>>)
    requires
        i <= s@.len(),
    ensures
        match r {
            Some(vec) => parse_value(s@.skip(i as int), k@, v@) == Some(pairs_view(vec@)),
            None => parse_value(s@.skip(i as int), k@, v@) is None,
        },
    decreases s@.len() - i, 0int,
{
    let n = s.unicode_len();
    if i == n {
        return None;
    }
    let ghost w = s@.skip(i as int);
    let c = s.get_char(i);
    proof {
        assert(w[0] == s@[i as int]);
    }
    if c == '\n' {
        proof {
            assert(w.skip(1) =~= s@.skip(i + 1));
        }
        match decode_entries(s, i + 1) {
            None => None,
            Some(rest) => {
                let mut out: Vec<(String, String)> = Vec::new();
                out.push((k, v));
                let mut rest = rest;
                let ghost rest0 = rest@;
                out.append(&mut rest);
                proof {
                    assert(pairs_view(out@) =~= seq![(out@[0].0@, out@[0].1@)] + pairs_view(
                        rest0,
                    ));
                }
                Some(out)
            },
        }
    } else if c == '=' {
        None
    } else if c == '\\' {
        if i + 1 == n {
            proof {
                assert(w.len() == 1);
            }
            return None;
        }
        let e = s.get_char(i + 1);
        proof {
            assert(w[1] == s@[i + 1]);
        }
        let u: Option<char> = if e == '\\' {
            Some('\\')
        } else if e == 'n' {
            Some('\n')
        } else if e == '=' {
            Some('=')
        } else {
            None
        };
        proof {
            assert(u == unesc_char(e));
        }
        match u {
            None => None,
            Some(c2) => {
                let mut v2 = v;
                push_char(&mut v2, c2);
                proof {
                    assert(w.skip(2) =~= s@.skip(i + 2));
                }
                decode_value(s, i + 2, k, v2)
            },
        }
    } else {
        let mut v2 = v;
        push_char(&mut v2, c);
        proof {
            assert(w.skip(1) =~= s@.skip(i + 1));
        }
        decode_value(s, i + 1, k, v2)
    }
}

} // verus!
