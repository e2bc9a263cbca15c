//! Text shape of the task file: splitting into lines on `'\n'`, splitting
//! a line into whitespace-delimited tokens, and joining tokens back with
//! single spaces. The specification functions here say exactly which
//! sequences come out; the executable splitters are proved against them.

use vstd::prelude::*;

verus! {

/// Whether a character has the Unicode `White_Space` property, the set
/// the standard library's whitespace splitting goes by.
pub open spec fn is_ws(c: char) -> bool {
    let v = c as int;
    v == 0x20 || (0x9 <= v && v <= 0xD) || v == 0x85 || v == 0xA0 || v == 0x1680 || (0x2000 <= v
        && v <= 0x200A) || v == 0x2028 || v == 0x2029 || v == 0x202F || v == 0x205F || v == 0x3000
}

/// The position of the first whitespace character, or the length when
/// there is none.
pub open spec fn first_ws(s: Seq<char>) -> int
    decreases s.len(),
{
    if s.len() == 0 {
        0
    } else if is_ws(s[0]) {
        0
    } else {
        1 + first_ws(s.drop_first())
    }
}

/// The position of the first `'\n'`, or the length when there is none.
pub open spec fn first_nl(s: Seq<char>) -> int
    decreases s.len(),
{
    if s.len() == 0 {
        0
    } else if s[0] == '\n' {
        0
    } else {
        1 + first_nl(s.drop_first())
    }
}

/// `first_ws` points at the first whitespace character: everything
/// before it is not whitespace, and it is in bounds.
pub proof fn lemma_first_ws(s: Seq<char>)
    ensures
        0 <= first_ws(s) <= s.len(),
        forall|i: int| 0 <= i < first_ws(s) ==> !is_ws(#[trigger] s[i]),
        first_ws(s) < s.len() ==> is_ws(s[first_ws(s)]),
    decreases s.len(),
{
    if s.len() > 0 && !is_ws(s[0]) {
        lemma_first_ws(s.drop_first());
        assert forall|i: int| 0 <= i < first_ws(s) implies !is_ws(#[trigger] s[i]) by {
            if i >= 1 {
                assert(!is_ws(s.drop_first()[i - 1]));
                assert(s.drop_first()[i - 1] == s[i]);
            }
        }
        if first_ws(s) < s.len() {
            assert(s[first_ws(s)] == s.drop_first()[first_ws(s.drop_first())]);
        }
    }
}

/// A position with no whitespace before it, and whitespace (or the end)
/// at it, is exactly `first_ws`.
pub proof fn lemma_first_ws_is(s: Seq<char>, k: int)
    requires
        0 <= k <= s.len(),
        forall|i: int| 0 <= i < k ==> !is_ws(#[trigger] s[i]),
        k < s.len() ==> is_ws(s[k]),
    ensures
        first_ws(s) == k,
{
    lemma_first_ws(s);
}

/// `first_nl` points at the first `'\n'`: everything before it differs
/// from `'\n'`, and it is in bounds.
pub proof fn lemma_first_nl(s: Seq<char>)
    ensures
        0 <= first_nl(s) <= s.len(),
        forall|i: int| 0 <= i < first_nl(s) ==> #[trigger] s[i] != '\n',
        first_nl(s) < s.len() ==> s[first_nl(s)] == '\n',
    decreases s.len(),
{
    if s.len() > 0 && s[0] != '\n' {
        lemma_first_nl(s.drop_first());
        assert forall|i: int| 0 <= i < first_nl(s) implies #[trigger] s[i] != '\n' by {
            if i >= 1 {
                assert(s.drop_first()[i - 1] != '\n');
                assert(s.drop_first()[i - 1] == s[i]);
            }
        }
        if first_nl(s) < s.len() {
            assert(s[first_nl(s)] == s.drop_first()[first_nl(s.drop_first())]);
        }
    }
}

/// A position with no `'\n'` before it, and `'\n'` (or the end) at it,
/// is exactly `first_nl`.
pub proof fn lemma_first_nl_is(s: Seq<char>, k: int)
    requires
        0 <= k <= s.len(),
        forall|i: int| 0 <= i < k ==> #[trigger] s[i] != '\n',
        k < s.len() ==> s[k] == '\n',
    ensures
        first_nl(s) == k,
{
    lemma_first_nl(s);
}

/// The whitespace-delimited tokens of a sequence, in order: leading
/// whitespace is skipped, a token is a maximal run of non-whitespace.
pub open spec fn tokens_of(s: Seq<char>) -> Seq<Seq<char>>
    decreases s.len(),
    via tokens_of_decreases
{
    if s.len() == 0 {
        Seq::empty()
    } else if is_ws(s[0]) {
        tokens_of(s.drop_first())
    } else {
        seq![s.subrange(0, first_ws(s))] + tokens_of(s.subrange(first_ws(s), s.len() as int))
    }
}

#[via_fn]
proof fn tokens_of_decreases(s: Seq<char>) {
    if s.len() > 0 && !is_ws(s[0]) {
        lemma_first_ws(s);
        assert(first_ws(s) >= 1);
    }
}

/// The lines of a text: the segments between `'\n'` characters, with no
/// empty final line when the text ends in `'\n'`.
pub open spec fn lines_of(s: Seq<char>) -> Seq<Seq<char>>
    decreases s.len(),
    via lines_of_decreases
{
    if s.len() == 0 {
        Seq::empty()
    } else if first_nl(s) == s.len() {
        seq![s]
    } else {
        seq![s.subrange(0, first_nl(s))] + lines_of(s.subrange(first_nl(s) + 1, s.len() as int))
    }
}

#[via_fn]
proof fn lines_of_decreases(s: Seq<char>) {
    if s.len() > 0 {
        lemma_first_nl(s);
    }
}

/// The tokens joined back into one sequence with single spaces between.
pub open spec fn joined(ts: Seq<Seq<char>>) -> Seq<char>
    decreases ts.len(),
{
    if ts.len() == 0 {
        Seq::empty()
    } else if ts.len() == 1 {
        ts[0]
    } else {
        ts[0] + seq![' '] + joined(ts.drop_first())
    }
}

/// Joining one more token appends a space and the token.
pub proof fn lemma_joined_push(ts: Seq<Seq<char>>, t: Seq<char>)
    ensures
        ts.len() == 0 ==> joined(ts.push(t)) == t,
        ts.len() > 0 ==> joined(ts.push(t)) == joined(ts) + seq![' '] + t,
    decreases ts.len(),
{
    if ts.len() == 0 {
        assert(joined(ts.push(t)) == ts.push(t)[0]);
        assert(ts.push(t)[0] == t);
    } else if ts.len() == 1 {
        assert(ts.push(t).drop_first() =~= seq![t]);
        assert(joined(seq![t]) == seq![t][0]);
        assert(seq![t][0] == t);
        assert(ts.push(t)[0] == ts[0]);
        assert(joined(ts.push(t)) == ts[0] + seq![' '] + t);
        assert(joined(ts) == ts[0]);
    } else {
        lemma_joined_push(ts.drop_first(), t);
        assert(ts.push(t).drop_first() =~= ts.drop_first().push(t));
        assert(joined(ts.push(t)) == ts[0] + seq![' '] + (joined(ts.drop_first()) + seq![' '] + t));
        assert(ts[0] + seq![' '] + (joined(ts.drop_first()) + seq![' '] + t) =~= (ts[0] + seq![' ']
            + joined(ts.drop_first())) + seq![' '] + t);
    }
}

/// A well-formed token: non-empty, with no whitespace inside.
pub open spec fn wf_token(t: Seq<char>) -> bool {
    t.len() >= 1 && forall|i: int| 0 <= i < t.len() ==> !is_ws(#[trigger] t[i])
}

/// A description in the form the codec round-trips: it reads back as
/// the single-space join of its own tokens, and has at least one.
pub open spec fn normalized_description(s: Seq<char>) -> bool {
    tokens_of(s).len() >= 1 && joined(tokens_of(s)) == s
}

/// Every token that splitting yields is well-formed.
pub proof fn lemma_tokens_wf(s: Seq<char>)
    ensures
        forall|k: int| 0 <= k < tokens_of(s).len() ==> wf_token(#[trigger] tokens_of(s)[k]),
    decreases s.len(),
{
    if s.len() == 0 {
    } else if is_ws(s[0]) {
        lemma_tokens_wf(s.drop_first());
        assert(tokens_of(s) == tokens_of(s.drop_first()));
        assert forall|k: int| 0 <= k < tokens_of(s).len() implies wf_token(
            #[trigger] tokens_of(s)[k],
        ) by {
            assert(tokens_of(s)[k] == tokens_of(s.drop_first())[k]);
        }
    } else {
        lemma_first_ws(s);
        let fw = first_ws(s);
        let head = s.subrange(0, fw);
        let rest = s.subrange(fw, s.len() as int);
        assert(fw >= 1);
        lemma_tokens_wf(rest);
        assert(wf_token(head)) by {
            assert(forall|i: int| 0 <= i < fw ==> head[i] == #[trigger] s[i]);
        }
        assert forall|k: int| 0 <= k < tokens_of(s).len() implies wf_token(
            #[trigger] tokens_of(s)[k],
        ) by {
            if k == 0 {
                assert(tokens_of(s)[0] == head);
            } else {
                assert(tokens_of(s)[k] == tokens_of(rest)[k - 1]);
            }
        }
    }
}

/// Joining well-formed tokens never produces a newline.
pub proof fn lemma_joined_no_nl(ts: Seq<Seq<char>>)
    requires
        forall|k: int| 0 <= k < ts.len() ==> wf_token(#[trigger] ts[k]),
    ensures
        forall|i: int| 0 <= i < joined(ts).len() ==> #[trigger] joined(ts)[i] != '\n',
    decreases ts.len(),
{
    if ts.len() <= 1 {
    } else {
        assert(forall|k: int|
            0 <= k < ts.drop_first().len() ==> wf_token(#[trigger] ts.drop_first()[k]));
        lemma_joined_no_nl(ts.drop_first());
        let j = joined(ts);
        let head = ts[0];
        let tail = joined(ts.drop_first());
        assert(j == head + seq![' '] + tail);
        assert forall|i: int| 0 <= i < j.len() implies #[trigger] j[i] != '\n' by {
            if i < head.len() {
                assert(j[i] == head[i]);
                assert(wf_token(ts[0]));
            } else if i == head.len() {
                assert(j[i] == ' ');
            } else {
                assert(j[i] == tail[i - head.len() - 1]);
            }
        }
    }
}

/// A normalized description is non-empty and holds no newline.
pub proof fn lemma_normalized_no_nl(s: Seq<char>)
    requires
        normalized_description(s),
    ensures
        s.len() >= 1,
        forall|i: int| 0 <= i < s.len() ==> #[trigger] s[i] != '\n',
{
    lemma_tokens_wf(s);
    lemma_joined_no_nl(tokens_of(s));
    assert(wf_token(tokens_of(s)[0]));
    if tokens_of(s).len() == 1 {
        assert(joined(tokens_of(s)) == tokens_of(s)[0]);
    }
}

/// Splitting a sequence that starts with a well-formed token followed
/// by whitespace (or the end) yields that token, then the rest's tokens.
pub proof fn lemma_tokens_of_token_prefix(a: Seq<char>, b: Seq<char>)
    requires
        wf_token(a),
        b.len() == 0 || is_ws(b[0]),
    ensures
        tokens_of(a + b) == seq![a] + tokens_of(b),
{
    let s = a + b;
    assert(s[0] == a[0]);
    assert(!is_ws(s[0]));
    assert forall|i: int| 0 <= i < a.len() implies !is_ws(#[trigger] s[i]) by {
        assert(s[i] == a[i]);
    }
    if a.len() < s.len() {
        assert(s[a.len() as int] == b[0]);
    }
    lemma_first_ws_is(s, a.len() as int);
    assert(s.subrange(0, a.len() as int) =~= a);
    assert(s.subrange(a.len() as int, s.len() as int) =~= b);
}

/// Leading whitespace does not change the tokens.
pub proof fn lemma_tokens_of_ws_prefix(c: char, b: Seq<char>)
    requires
        is_ws(c),
    ensures
        tokens_of(seq![c] + b) == tokens_of(b),
{
    let s = seq![c] + b;
    assert(s[0] == c);
    assert(s.drop_first() =~= b);
}

/// Splitting the single-space join of well-formed tokens returns
/// exactly those tokens.
pub proof fn lemma_tokens_of_joined(ts: Seq<Seq<char>>)
    requires
        forall|k: int| 0 <= k < ts.len() ==> wf_token(#[trigger] ts[k]),
    ensures
        tokens_of(joined(ts)) == ts,
    decreases ts.len(),
{
    if ts.len() == 0 {
        assert(joined(ts) == Seq::<char>::empty());
        assert(tokens_of(joined(ts)) =~= ts);
    } else if ts.len() == 1 {
        assert(joined(ts) == ts[0]);
        assert(wf_token(ts[0]));
        lemma_tokens_of_token_prefix(ts[0], Seq::<char>::empty());
        assert(ts[0] + Seq::<char>::empty() =~= ts[0]);
        assert(tokens_of(Seq::<char>::empty()) =~= Seq::<Seq<char>>::empty());
        assert(seq![ts[0]] + Seq::<Seq<char>>::empty() =~= ts);
    } else {
        let rest = ts.drop_first();
        assert(forall|k: int| 0 <= k < rest.len() ==> wf_token(#[trigger] rest[k]));
        lemma_tokens_of_joined(rest);
        let b = seq![' '] + joined(rest);
        assert(b[0] == ' ');
        lemma_tokens_of_token_prefix(ts[0], b);
        lemma_tokens_of_ws_prefix(' ', joined(rest));
        assert(joined(ts) == ts[0] + seq![' '] + joined(rest));
        assert(ts[0] + seq![' '] + joined(rest) =~= ts[0] + b);
        assert(tokens_of(joined(ts)) == seq![ts[0]] + tokens_of(b));
        assert(tokens_of(b) == tokens_of(joined(rest)));
        assert(seq![ts[0]] + rest =~= ts);
    }
}

/// A text whose first line holds no newline splits into that line,
/// then the lines of what follows the `'\n'` after it.
pub proof fn lemma_lines_of_split(a: Seq<char>, b: Seq<char>)
    requires
        forall|i: int| 0 <= i < a.len() ==> #[trigger] a[i] != '\n',
    ensures
        lines_of(a + seq!['\n'] + b) == seq![a] + lines_of(b),
{
    let s = a + seq!['\n'] + b;
    assert forall|i: int| 0 <= i < a.len() implies #[trigger] s[i] != '\n' by {
        assert(s[i] == a[i]);
    }
    assert(s[a.len() as int] == '\n');
    lemma_first_nl_is(s, a.len() as int);
    assert(first_nl(s) < s.len());
    assert(s.subrange(0, a.len() as int) =~= a);
    assert(s.subrange(a.len() as int + 1, s.len() as int) =~= b);
}

/// Compares two string slices character by character.
pub fn str_eq(a: &str, b: &str) -> (r: bool)
    ensures
        r == (a@ == b@),
{
    let la = a.unicode_len();
    let lb = b.unicode_len();
    if la != lb {
        return false;
    }
    let mut i: usize = 0;
    while i < la
        invariant
            i <= la,
            la == a@.len(),
            la == b@.len(),
            forall|k: int| 0 <= k < i ==> a@[k] == b@[k],
        decreases la - i,
    {
        if a.get_char(i) != b.get_char(i) {
            return false;
        }
        i = i + 1;
    }
    proof {
        assert(a@ =~= b@);
    }
    true
}

/// Whether the character at position `j` of `s` is whitespace.
fn ws_at(s: &str, j: usize) -> (b: bool)
    requires
        j < s@.len(),
    ensures
        b == is_ws(s@[j as int]),
{
    let c = s.get_char(j);
    let v = c as u32;
    v == 0x20 || (0x9 <= v && v <= 0xD) || v == 0x85 || v == 0xA0 || v == 0x1680 || (0x2000 <= v
        && v <= 0x200A) || v == 0x2028 || v == 0x2029 || v == 0x202F || v == 0x205F || v == 0x3000
}

/// Splits a line into its whitespace-delimited tokens.
pub fn split_tokens(s: &str) -> (r: Vec<String>)
    ensures
        r.deep_view() == tokens_of(s@),
{
    let len = s.unicode_len();
    let mut toks: Vec<String> = Vec::new();
    let mut i: usize = 0;
    proof {
        assert(toks.deep_view() =~= Seq::<Seq<char>>::empty());
        assert(s@.subrange(0, len as int) =~= s@);
        assert(toks.deep_view() + tokens_of(s@) =~= tokens_of(s@));
    }
    while i < len
        invariant
            i <= len,
            len == s@.len(),
            tokens_of(s@) == toks.deep_view() + tokens_of(s@.subrange(i as int, len as int)),
        decreases len - i,
    {
        let ghost rest = s@.subrange(i as int, len as int);
        if ws_at(s, i) {
            proof {
                assert(rest[0] == s@[i as int]);
                assert(rest.drop_first() =~= s@.subrange(i + 1, len as int));
                assert(tokens_of(rest) == tokens_of(rest.drop_first()));
            }
            i = i + 1;
        } else {
            let start = i;
            let mut j = i + 1;
            while j < len && !ws_at(s, j)
                invariant
                    start < j <= len,
                    len == s@.len(),
                    forall|k: int| start <= k < j ==> !is_ws(#[trigger] s@[k]),
                    !is_ws(s@[start as int]),
                decreases len - j,
            {
                j = j + 1;
            }
            let tok = s.substring_char(start, j).to_owned();
            let ghost dv = toks.deep_view();
            toks.push(tok);
            proof {
                assert(toks.deep_view() =~= dv.push(tok@));
                assert forall|k: int| 0 <= k < j - start implies !is_ws(#[trigger] rest[k]) by {
                    assert(rest[k] == s@[start + k]);
                }
                if j - start < rest.len() {
                    assert(rest[j - start] == s@[j as int]);
                }
                lemma_first_ws_is(rest, j - start);
                assert(!is_ws(rest[0]));
                assert(tokens_of(rest) == seq![rest.subrange(0, j - start)] + tokens_of(
                    rest.subrange(j - start, rest.len() as int),
                ));
                assert(rest.subrange(0, j - start) =~= s@.subrange(start as int, j as int));
                assert(rest.subrange(j - start, rest.len() as int) =~= s@.subrange(
                    j as int,
                    len as int,
                ));
                assert(tok@ == s@.subrange(start as int, j as int));
                assert(dv.push(tok@) + tokens_of(s@.subrange(j as int, len as int)) =~= dv + (
                seq![s@.subrange(start as int, j as int)] + tokens_of(
                    s@.subrange(j as int, len as int),
                )));
            }
            i = j;
        }
    }
    proof {
        assert(s@.subrange(i as int, len as int) =~= Seq::<char>::empty());
        assert(tokens_of(Seq::<char>::empty()) =~= Seq::<Seq<char>>::empty());
        assert(toks.deep_view() + Seq::<Seq<char>>::empty() =~= toks.deep_view());
    }
    toks
}

/// Splits a text into its lines.
pub fn split_lines(s: &str) -> (r: Vec<String>)
    ensures
        r.deep_view() == lines_of(s@),
{
    let len = s.unicode_len();
    let mut lines: Vec<String> = Vec::new();
    let mut i: usize = 0;
    proof {
        assert(lines.deep_view() =~= Seq::<Seq<char>>::empty());
        assert(s@.subrange(0, len as int) =~= s@);
        assert(lines.deep_view() + lines_of(s@) =~= lines_of(s@));
    }
    while i < len
        invariant
            i <= len,
            len == s@.len(),
            lines_of(s@) == lines.deep_view() + lines_of(s@.subrange(i as int, len as int)),
        decreases len - i,
    {
        let ghost rest = s@.subrange(i as int, len as int);
        let start = i;
        let mut j = i;
        while j < len && !nl_at(s, j)
            invariant
                start <= j <= len,
                len == s@.len(),
                forall|k: int| start <= k < j ==> #[trigger] s@[k] != '\n',
            decreases len - j,
        {
            j = j + 1;
        }
        let line = s.substring_char(start, j).to_owned();
        let ghost dv = lines.deep_view();
        lines.push(line);
        proof {
            assert(lines.deep_view() =~= dv.push(line@));
            assert forall|k: int| 0 <= k < j - start implies #[trigger] rest[k] != '\n' by {
                assert(rest[k] == s@[start + k]);
            }
            if j - start < rest.len() {
                assert(rest[j - start] == s@[j as int]);
            }
            lemma_first_nl_is(rest, j - start);
            assert(line@ == rest.subrange(0, j - start));
        }
        if j < len {
            proof {
                assert(lines_of(rest) == seq![rest.subrange(0, j - start)] + lines_of(
                    rest.subrange(j - start + 1, rest.len() as int),
                ));
                assert(rest.subrange(j - start + 1, rest.len() as int) =~= s@.subrange(
                    j + 1,
                    len as int,
                ));
                assert(dv.push(line@) + lines_of(s@.subrange(j + 1, len as int)) =~= dv + (
                seq![line@] + lines_of(s@.subrange(j + 1, len as int))));
            }
            i = j + 1;
        } else {
            proof {
                assert(first_nl(rest) == rest.len());
                assert(rest.subrange(0, j - start) =~= rest);
                assert(lines_of(rest) =~= seq![rest]);
                assert(s@.subrange(len as int, len as int) =~= Seq::<char>::empty());
                assert(lines_of(Seq::<char>::empty()) =~= Seq::<Seq<char>>::empty());
                assert(dv.push(line@) + Seq::<Seq<char>>::empty() =~= dv + seq![rest]);
            }
            i = len;
        }
    }
    proof {
        assert(s@.subrange(i as int, len as int) =~= Seq::<char>::empty());
        assert(lines_of(Seq::<char>::empty()) =~= Seq::<Seq<char>>::empty());
        assert(lines.deep_view() + Seq::<Seq<char>>::empty() =~= lines.deep_view());
    }
    lines
}

/// Whether the character at position `j` of `s` is `'\n'`.
fn nl_at(s: &str, j: usize) -> (b: bool)
    requires
        j < s@.len(),
    ensures
        b == (s@[j as int] == '\n'),
{
    let c = s.get_char(j);
    c == '\n'
}

/// Joins the tokens from position `from` on with single spaces.
pub fn join_from(toks: &Vec<String>, from: usize) -> (r: String)
    requires
        from <= toks@.len(),
    ensures
        r@ == joined(toks.deep_view().subrange(from as int, toks@.len() as int)),
{
    let ghost dv = toks.deep_view();
    let mut r = String::new();
    let mut i = from;
    proof {
        assert(dv.subrange(from as int, from as int) =~= Seq::<Seq<char>>::empty());
    }
    while i < toks.len()
        invariant
            from <= i <= toks@.len(),
            dv == toks.deep_view(),
            r@ == joined(dv.subrange(from as int, i as int)),
        decreases toks@.len() - i,
    {
        if i > from {
            proof {
                reveal_strlit(" ");
            }
            r.append(" ");
        }
        r.append(toks[i].as_str());
        proof {
            let pre = dv.subrange(from as int, i as int);
            lemma_joined_push(pre, dv[i as int]);
            assert(dv.subrange(from as int, i + 1) =~= pre.push(dv[i as int]));
            if i > from {
                assert(" "@ =~= seq![' ']);
            }
        }
        i = i + 1;
    }
    r
}

} // verus!
