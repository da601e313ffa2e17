//! Text building blocks: decimal numerals and XML escaping.

use vstd::prelude::*;
use vstd::std_specs::iter::IteratorSpec;
use vstd::string::*;

verus! {

/// Appends one character (`String::push`).
#[verifier::external_body]
pub(crate) fn string_push(s: &mut String, c: char)
    ensures
        final(s)@ == old(s)@.push(c),
{
    s.push(c);
}

/// The decimal digit for `d` (0 to 9).
pub open spec fn digit_char(d: int) -> char {
    (48 + d) as char
}

/// The decimal numeral of `n`, without leading zeros.
pub open spec fn decimal(n: nat) -> Seq<char>
    decreases n,
{
    if n < 10 {
        seq![digit_char(n as int)]
    } else {
        decimal(n / 10).push(digit_char((n % 10) as int))
    }
}

/// Appends the decimal numeral of `n`.
pub fn push_decimal(out: &mut String, n: usize)
    ensures
        final(out)@ == old(out)@ + decimal(n as nat),
    decreases n,
{
    if n >= 10 {
        push_decimal(out, n / 10);
    }
    let d: u8 = (n % 10) as u8;
    let c: char = (48u8 + d) as char;
    string_push(out, c);
    proof {
        if n < 10 {
            assert(old(out)@ + decimal(n as nat) =~= old(out)@.push(c));
        } else {
            assert(old(out)@ + decimal(n as nat) =~= (old(out)@ + decimal((n / 10) as nat)).push(c));
        }
    }
}

/// How one character is written inside XML text: the five metacharacters
/// become entities, every other character stands for itself.
pub open spec fn esc_char(c: char) -> Seq<char> {
    if c == '&' {
        seq!['&', 'a', 'm', 'p', ';']
    } else if c == '<' {
        seq!['&', 'l', 't', ';']
    } else if c == '>' {
        seq!['&', 'g', 't', ';']
    } else if c == '"' {
        seq!['&', 'q', 'u', 'o', 't', ';']
    } else if c == '\'' {
        seq!['&', 'a', 'p', 'o', 's', ';']
    } else {
        seq![c]
    }
}

/// XML text escaping of a whole string, character by character.
pub open spec fn esc_spec(s: Seq<char>) -> Seq<char>
    decreases s.len(),
{
    if s.len() == 0 {
        Seq::empty()
    } else {
        esc_spec(s.drop_last()) + esc_char(s.last())
    }
}

/// Appends `s` escaped for XML text.
pub fn push_escaped(out: &mut String, s: &str)
    ensures
        final(out)@ == old(out)@ + esc_spec(s@),
{
    let ghost start = out@;
    let mut chars = s.chars();
    let ghost all = s@;
    let ghost mut done: Seq<char> = Seq::empty();
    assert(all.subrange(0, 0) =~= done);
    loop
        invariant
            chars.remaining() == all.subrange(done.len() as int, all.len() as int),
            done.len() <= all.len(),
            done == all.subrange(0, done.len() as int),
            out@ == start + esc_spec(done),
        ensures
            out@ == start + esc_spec(all),
        decreases all.len() - done.len(),
    {
        match chars.next() {
            Some(c) => {
                if c == '&' {
                    out.append("&amp;");
                } else if c == '<' {
                    out.append("&lt;");
                } else if c == '>' {
                    out.append("&gt;");
                } else if c == '"' {
                    out.append("&quot;");
                } else if c == '\'' {
                    out.append("&apos;");
                } else {
                    string_push(out, c);
                }
                proof {
                    reveal_strlit("&amp;");
                    reveal_strlit("&lt;");
                    reveal_strlit("&gt;");
                    reveal_strlit("&quot;");
                    reveal_strlit("&apos;");
                    let nd = done.push(c);
                    assert(nd.drop_last() =~= done);
                    assert(out@ =~= start + esc_spec(nd));
                    done = nd;
                    assert(done =~= all.subrange(0, done.len() as int));
                }
            },
            None => {
                assert(done =~= all);
                break;
            },
        }
    }
}

} // verus!

verus! {

/// `t` ends with `u`.
pub open spec fn ends_with(t: Seq<char>, u: Seq<char>) -> bool {
    u.len() <= t.len() && t.subrange(t.len() - u.len(), t.len() as int) == u
}

pub open spec fn entity_amp() -> Seq<char> {
    seq!['&', 'a', 'm', 'p', ';']
}

pub open spec fn entity_lt() -> Seq<char> {
    seq!['&', 'l', 't', ';']
}

pub open spec fn entity_gt() -> Seq<char> {
    seq!['&', 'g', 't', ';']
}

pub open spec fn entity_quot() -> Seq<char> {
    seq!['&', 'q', 'u', 'o', 't', ';']
}

pub open spec fn entity_apos() -> Seq<char> {
    seq!['&', 'a', 'p', 'o', 's', ';']
}

/// XML text decoding of the five predefined entities: each entity stands
/// for its character, every other character for itself.
pub open spec fn unesc_spec(t: Seq<char>) -> Seq<char>
    decreases t.len(),
{
    if t.len() == 0 {
        Seq::empty()
    } else if ends_with(t, entity_amp()) {
        unesc_spec(t.subrange(0, t.len() - 5)).push('&')
    } else if ends_with(t, entity_lt()) {
        unesc_spec(t.subrange(0, t.len() - 4)).push('<')
    } else if ends_with(t, entity_gt()) {
        unesc_spec(t.subrange(0, t.len() - 4)).push('>')
    } else if ends_with(t, entity_quot()) {
        unesc_spec(t.subrange(0, t.len() - 6)).push('"')
    } else if ends_with(t, entity_apos()) {
        unesc_spec(t.subrange(0, t.len() - 6)).push('\'')
    } else {
        unesc_spec(t.drop_last()).push(t.last())
    }
}

proof fn lemma_esc_char_ends(c: char)
    ensures
        esc_char(c).len() >= 1,
        c == '&' || c == '<' || c == '>' || c == '"' || c == '\'' ==> esc_char(c).last() == ';',
        !(c == '&' || c == '<' || c == '>' || c == '"' || c == '\'') ==> esc_char(c) == seq![c],
{
}

/// Escaped text never ends in the middle of an entity: it does not end with
/// `&` followed by up to four characters none of which is `;`.
proof fn lemma_no_dangling(s: Seq<char>, w: Seq<char>)
    requires
        w.len() <= 4,
        !w.contains(';'),
    ensures
        !ends_with(esc_spec(s), seq!['&'] + w),
    decreases s.len(),
{
    if s.len() > 0 {
        let t = esc_spec(s);
        let p = esc_spec(s.drop_last());
        let c = s.last();
        let e = esc_char(c);
        let u = seq!['&'] + w;
        assert(t == p + e);
        lemma_esc_char_ends(c);
        if ends_with(t, u) {
            assert(t.last() == u.last()) by {
                assert(t.subrange(t.len() - u.len(), t.len() as int)[u.len() - 1] == t.last());
            }
            if c == '&' || c == '<' || c == '>' || c == '"' || c == '\'' {
                if w.len() > 0 {
                    assert(u.last() == w.last());
                    assert(w.contains(w.last())) by {
                        assert(w[w.len() - 1] == w.last());
                    }
                }
            } else {
                assert(e == seq![c]);
                if w.len() > 0 {
                    let w2 = w.drop_last();
                    assert(!w2.contains(';')) by {
                        if w2.contains(';') {
                            let k = choose|k: int| 0 <= k < w2.len() && w2[k] == ';';
                            assert(w[k] == ';');
                        }
                    }
                    lemma_no_dangling(s.drop_last(), w2);
                    let u2 = seq!['&'] + w2;
                    assert(p.subrange(p.len() - u2.len(), p.len() as int) =~= u2) by {
                        assert forall|k: int| 0 <= k < u2.len() implies p.subrange(
                            p.len() - u2.len(),
                            p.len() as int,
                        )[k] == u2[k] by {
                            assert(t.subrange(t.len() - u.len(), t.len() as int)[k] == u[k]);
                        }
                    }
                }
            }
        }
    }
}

/// Escaped text holds none of `<`, `>`, `"` and `'`.
pub proof fn lemma_esc_no_metachar(s: Seq<char>)
    ensures
        forall|i: int|
            0 <= i < esc_spec(s).len() ==> {
                let c = #[trigger] esc_spec(s)[i];
                c != '<' && c != '>' && c != '"' && c != '\''
            },
    decreases s.len(),
{
    if s.len() > 0 {
        lemma_esc_no_metachar(s.drop_last());
        let p = esc_spec(s.drop_last());
        let e = esc_char(s.last());
        assert(esc_spec(s) == p + e);
        assert forall|i: int| 0 <= i < esc_spec(s).len() implies {
            let c = #[trigger] esc_spec(s)[i];
            c != '<' && c != '>' && c != '"' && c != '\''
        } by {
            if i >= p.len() {
                assert(esc_spec(s)[i] == e[i - p.len()]);
            } else {
                assert(esc_spec(s)[i] == p[i]);
            }
        }
    }
}

/// `u` occurs in `t` at position `i`.
pub open spec fn occurs_at(t: Seq<char>, i: int, u: Seq<char>) -> bool {
    0 <= i && i + u.len() <= t.len() && t.subrange(i, i + u.len()) == u
}

/// One of the five predefined entities begins at position `i` of `t`.
pub open spec fn entity_at(t: Seq<char>, i: int) -> bool {
    ||| occurs_at(t, i, entity_amp())
    ||| occurs_at(t, i, entity_lt())
    ||| occurs_at(t, i, entity_gt())
    ||| occurs_at(t, i, entity_quot())
    ||| occurs_at(t, i, entity_apos())
}

/// The five characters that XML text escaping replaces.
pub open spec fn is_metachar(c: char) -> bool {
    c == '&' || c == '<' || c == '>' || c == '"' || c == '\''
}

/// `s` holds at least one of the five metacharacters.
pub open spec fn has_metachar(s: Seq<char>) -> bool {
    exists|i: int| 0 <= i < s.len() && is_metachar(#[trigger] s[i])
}

/// `u` occurs somewhere in `t`.
pub open spec fn contains_text(t: Seq<char>, u: Seq<char>) -> bool {
    exists|i: int| occurs_at(t, i, u)
}

/// A text contains itself.
pub proof fn lemma_contains_self(t: Seq<char>)
    ensures
        contains_text(t, t),
{
    assert(t.subrange(0, t.len() as int) =~= t);
    assert(occurs_at(t, 0, t));
}

/// What a text contains, a longer text made from it contains too.
pub proof fn lemma_contains_concat(a: Seq<char>, b: Seq<char>, u: Seq<char>)
    ensures
        contains_text(a, u) ==> contains_text(a + b, u),
        contains_text(b, u) ==> contains_text(a + b, u),
{
    if contains_text(a, u) {
        let i = choose|i: int| occurs_at(a, i, u);
        lemma_occurs_extend(a, b, i, u);
    }
    if contains_text(b, u) {
        let i = choose|i: int| occurs_at(b, i, u);
        assert((a + b).subrange(a.len() + i, a.len() + i + u.len()) =~= b.subrange(i, i + u.len()));
        assert(occurs_at(a + b, a.len() + i, u));
    }
}

/// Containment is transitive.
pub proof fn lemma_contains_trans(t: Seq<char>, m: Seq<char>, u: Seq<char>)
    requires
        contains_text(t, m),
        contains_text(m, u),
    ensures
        contains_text(t, u),
{
    let i = choose|i: int| occurs_at(t, i, m);
    let k = choose|k: int| occurs_at(m, k, u);
    assert(t.subrange(i + k, i + k + u.len()) =~= m.subrange(k, k + u.len())) by {
        assert forall|x: int| 0 <= x < u.len() implies #[trigger] t.subrange(i + k, i + k + u.len())[x]
            == m.subrange(k, k + u.len())[x] by {
            assert(t.subrange(i, i + m.len())[k + x] == m[k + x]);
        }
    }
    assert(occurs_at(t, i + k, u));
}

proof fn lemma_occurs_extend(p: Seq<char>, e: Seq<char>, i: int, u: Seq<char>)
    requires
        occurs_at(p, i, u),
    ensures
        occurs_at(p + e, i, u),
{
    assert((p + e).subrange(i, i + u.len()) =~= p.subrange(i, i + u.len()));
}

/// Within the writing of one character, `&` comes only first, and only for
/// a metacharacter.
proof fn lemma_esc_char_amp(c: char, k: int)
    requires
        0 <= k < esc_char(c).len(),
        esc_char(c)[k] == '&',
    ensures
        k == 0,
        is_metachar(c),
{
    let e = esc_char(c);
    if c == '&' {
        assert(e[1] == 'a' && e[2] == 'm' && e[3] == 'p' && e[4] == ';');
    } else if c == '<' {
        assert(e[1] == 'l' && e[2] == 't' && e[3] == ';');
    } else if c == '>' {
        assert(e[1] == 'g' && e[2] == 't' && e[3] == ';');
    } else if c == '"' {
        assert(e[1] == 'q' && e[2] == 'u' && e[3] == 'o' && e[4] == 't' && e[5] == ';');
    } else if c == '\'' {
        assert(e[1] == 'a' && e[2] == 'p' && e[3] == 'o' && e[4] == 's' && e[5] == ';');
    } else {
        assert(e == seq![c]);
    }
}

/// Each `&` in escaped text begins one of the five predefined entities.
pub proof fn lemma_esc_amp_begins_entity(s: Seq<char>)
    ensures
        forall|i: int|
            0 <= i < esc_spec(s).len() && #[trigger] esc_spec(s)[i] == '&' ==> entity_at(
                esc_spec(s),
                i,
            ),
    decreases s.len(),
{
    if s.len() > 0 {
        let s2 = s.drop_last();
        let c = s.last();
        lemma_esc_amp_begins_entity(s2);
        let p = esc_spec(s2);
        let e = esc_char(c);
        let t = esc_spec(s);
        assert(t == p + e);
        assert forall|i: int| 0 <= i < t.len() && #[trigger] t[i] == '&' implies entity_at(t, i) by {
            if i < p.len() {
                assert(t[i] == p[i]);
                assert(entity_at(p, i));
                if occurs_at(p, i, entity_amp()) {
                    lemma_occurs_extend(p, e, i, entity_amp());
                } else if occurs_at(p, i, entity_lt()) {
                    lemma_occurs_extend(p, e, i, entity_lt());
                } else if occurs_at(p, i, entity_gt()) {
                    lemma_occurs_extend(p, e, i, entity_gt());
                } else if occurs_at(p, i, entity_quot()) {
                    lemma_occurs_extend(p, e, i, entity_quot());
                } else {
                    lemma_occurs_extend(p, e, i, entity_apos());
                }
            } else {
                assert(t[i] == e[i - p.len()]);
                lemma_esc_char_amp(c, i - p.len());
                assert(t.subrange(i, i + e.len()) =~= e);
            }
        }
    }
}

proof fn lemma_has_metachar_last(s: Seq<char>)
    requires
        s.len() > 0,
    ensures
        has_metachar(s) <==> (has_metachar(s.drop_last()) || is_metachar(s.last())),
{
    let s2 = s.drop_last();
    if has_metachar(s2) {
        let j = choose|j: int| 0 <= j < s2.len() && is_metachar(#[trigger] s2[j]);
        assert(s[j] == s2[j]);
    }
    if is_metachar(s.last()) {
        assert(s[s.len() - 1] == s.last());
    }
    if has_metachar(s) {
        let j = choose|j: int| 0 <= j < s.len() && is_metachar(#[trigger] s[j]);
        if j < s.len() - 1 {
            assert(s2[j] == s[j]);
        }
    }
}

/// Escaping never shortens a text, and it leaves a text unchanged exactly
/// when the text holds none of `&`, `<`, `>`, `"` and `'`; otherwise the
/// escaped text is longer.
pub proof fn lemma_esc_unchanged_iff(s: Seq<char>)
    ensures
        esc_spec(s).len() >= s.len(),
        has_metachar(s) ==> esc_spec(s).len() > s.len(),
        esc_spec(s) == s <==> !has_metachar(s),
    decreases s.len(),
{
    if s.len() > 0 {
        let s2 = s.drop_last();
        let c = s.last();
        lemma_esc_unchanged_iff(s2);
        lemma_has_metachar_last(s);
        let e = esc_char(c);
        assert(esc_spec(s) == esc_spec(s2) + e);
        if !has_metachar(s) {
            assert(e == seq![c]);
            assert(esc_spec(s) =~= s);
        }
    } else {
        assert(esc_spec(s) =~= s);
    }
}

/// Escaping loses nothing: decoding the entities of escaped text gives the
/// text back.
#[verifier::spinoff_prover]
#[verifier::rlimit(40)]
pub proof fn lemma_esc_roundtrip(s: Seq<char>)
    ensures
        unesc_spec(esc_spec(s)) == s,
    decreases s.len(),
{
    if s.len() > 0 {
        let s2 = s.drop_last();
        let c = s.last();
        let p = esc_spec(s2);
        let e = esc_char(c);
        let t = esc_spec(s);
        assert(t == p + e);
        lemma_esc_roundtrip(s2);
        assert(s2.push(c) =~= s);
        assert(t.subrange(0, p.len() as int) =~= p);
        if c == ';' {
            lemma_no_dangling(s2, seq!['a', 'm', 'p']);
            lemma_no_dangling(s2, seq!['l', 't']);
            lemma_no_dangling(s2, seq!['g', 't']);
            lemma_no_dangling(s2, seq!['q', 'u', 'o', 't']);
            lemma_no_dangling(s2, seq!['a', 'p', 'o', 's']);
            assert(!ends_with(t, entity_amp())) by {
                if ends_with(t, entity_amp()) {
                    assert(p.subrange(p.len() - 4, p.len() as int) =~= seq!['&'] + seq!['a', 'm', 'p']);
                }
            }
            assert(!ends_with(t, entity_lt())) by {
                if ends_with(t, entity_lt()) {
                    assert(p.subrange(p.len() - 3, p.len() as int) =~= seq!['&'] + seq!['l', 't']);
                }
            }
            assert(!ends_with(t, entity_gt())) by {
                if ends_with(t, entity_gt()) {
                    assert(p.subrange(p.len() - 3, p.len() as int) =~= seq!['&'] + seq!['g', 't']);
                }
            }
            assert(!ends_with(t, entity_quot())) by {
                if ends_with(t, entity_quot()) {
                    assert(p.subrange(p.len() - 5, p.len() as int) =~= seq!['&'] + seq![
                        'q',
                        'u',
                        'o',
                        't',
                    ]);
                }
            }
            assert(!ends_with(t, entity_apos())) by {
                if ends_with(t, entity_apos()) {
                    assert(p.subrange(p.len() - 5, p.len() as int) =~= seq!['&'] + seq![
                        'a',
                        'p',
                        'o',
                        's',
                    ]);
                }
            }
            assert(t.drop_last() =~= p);
        } else if c == '&' {
            assert(ends_with(t, entity_amp())) by {
                assert(t.subrange(t.len() - 5, t.len() as int) =~= entity_amp());
            }
        } else if c == '<' {
            assert(t.subrange(t.len() - 4, t.len() as int) =~= entity_lt());
            assert(!ends_with(t, entity_amp())) by {
                if ends_with(t, entity_amp()) {
                    assert(t[t.len() - 2] == 'p');
                }
            }
        } else if c == '>' {
            assert(t.subrange(t.len() - 4, t.len() as int) =~= entity_gt());
            assert(!ends_with(t, entity_amp())) by {
                if ends_with(t, entity_amp()) {
                    assert(t[t.len() - 2] == 'p');
                }
            }
            assert(!ends_with(t, entity_lt())) by {
                if ends_with(t, entity_lt()) {
                    assert(t[t.len() - 3] == 'l');
                }
            }
        } else if c == '"' {
            assert(t.subrange(t.len() - 6, t.len() as int) =~= entity_quot());
            assert(!ends_with(t, entity_amp())) by {
                if ends_with(t, entity_amp()) {
                    assert(t[t.len() - 2] == 'p');
                }
            }
            assert(!ends_with(t, entity_lt())) by {
                if ends_with(t, entity_lt()) {
                    assert(t[t.len() - 3] == 'l');
                }
            }
            assert(!ends_with(t, entity_gt())) by {
                if ends_with(t, entity_gt()) {
                    assert(t[t.len() - 3] == 'g');
                }
            }
        } else if c == '\'' {
            assert(t.subrange(t.len() - 6, t.len() as int) =~= entity_apos());
            assert(!ends_with(t, entity_amp())) by {
                if ends_with(t, entity_amp()) {
                    assert(t[t.len() - 2] == 'p');
                }
            }
            assert(!ends_with(t, entity_lt())) by {
                if ends_with(t, entity_lt()) {
                    assert(t[t.len() - 3] == 'l');
                }
            }
            assert(!ends_with(t, entity_gt())) by {
                if ends_with(t, entity_gt()) {
                    assert(t[t.len() - 3] == 'g');
                }
            }
            assert(!ends_with(t, entity_quot())) by {
                if ends_with(t, entity_quot()) {
                    assert(t[t.len() - 3] == 'o' && t[t.len() - 4] == 'u');
                }
            }
        } else {
            assert(e == seq![c]);
            assert(t.last() == c);
            assert(!ends_with(t, entity_amp())) by {
                if ends_with(t, entity_amp()) {
                    assert(t[t.len() - 1] == ';');
                }
            }
            assert(!ends_with(t, entity_lt())) by {
                if ends_with(t, entity_lt()) {
                    assert(t[t.len() - 1] == ';');
                }
            }
            assert(!ends_with(t, entity_gt())) by {
                if ends_with(t, entity_gt()) {
                    assert(t[t.len() - 1] == ';');
                }
            }
            assert(!ends_with(t, entity_quot())) by {
                if ends_with(t, entity_quot()) {
                    assert(t[t.len() - 1] == ';');
                }
            }
            assert(!ends_with(t, entity_apos())) by {
                if ends_with(t, entity_apos()) {
                    assert(t[t.len() - 1] == ';');
                }
            }
            assert(t.drop_last() =~= p);
        }
    }
}

} // verus!
