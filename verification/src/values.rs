//! The text format that vertex and colour data are stored in: values
//! separated by commas, with white space around a value and empty fields
//! ignored.
use vstd::prelude::*;
use vstd::string::StrSliceExecFns;

verus! {

/// Unicode's `White_Space` property, which `char::is_whitespace` and
/// `str::trim` use: the control characters tab to carriage return, space,
/// next line, no-break space, ogham space mark, the spaces from en quad to
/// hair space, line and paragraph separator, narrow no-break space, medium
/// mathematical space and ideographic space.
pub open spec fn is_white_space(c: char) -> bool {
    ||| '\u{9}' <= c <= '\u{d}'
    ||| c == ' '
    ||| c == '\u{85}'
    ||| c == '\u{a0}'
    ||| c == '\u{1680}'
    ||| '\u{2000}' <= c <= '\u{200a}'
    ||| c == '\u{2028}'
    ||| c == '\u{2029}'
    ||| c == '\u{202f}'
    ||| c == '\u{205f}'
    ||| c == '\u{3000}'
}

/// `s` without its leading white space.
pub open spec fn trim_start(s: Seq<char>) -> Seq<char>
    decreases s.len(),
{
    if s.len() > 0 && is_white_space(s[0]) {
        trim_start(s.drop_first())
    } else {
        s
    }
}

/// `s` without its trailing white space.
pub open spec fn trim_end(s: Seq<char>) -> Seq<char>
    decreases s.len(),
{
    if s.len() > 0 && is_white_space(s.last()) {
        trim_end(s.drop_last())
    } else {
        s
    }
}

/// `s` without leading and trailing white space, as `str::trim` gives it.
pub open spec fn trim(s: Seq<char>) -> Seq<char> {
    trim_end(trim_start(s))
}

/// The fields of `s` between commas, as `str::split(',')` gives them: one
/// more field than `s` has commas, each possibly empty.
pub open spec fn fields(s: Seq<char>) -> Seq<Seq<char>>
    decreases s.len(),
{
    if s.len() == 0 {
        seq![Seq::<char>::empty()]
    } else {
        let before = fields(s.drop_last());
        if s.last() == ',' {
            before.push(Seq::<char>::empty())
        } else {
            before.update(before.len() - 1, before.last().push(s.last()))
        }
    }
}

/// Whether a trimmed field holds a value.
pub open spec fn is_value(field: Seq<char>) -> bool {
    field.len() > 0
}

/// The given fields, trimmed, without those that hold only white space.
pub open spec fn tokens_of_fields(fs: Seq<Seq<char>>) -> Seq<Seq<char>> {
    fs.map_values(|f: Seq<char>| trim(f)).filter(|t: Seq<char>| is_value(t))
}

/// The values written in `s`: its comma-separated fields, trimmed, with the
/// fields that hold only white space left out.
pub open spec fn value_tokens(s: Seq<char>) -> Seq<Seq<char>> {
    tokens_of_fields(fields(s))
}

/// There is always at least one field.
proof fn lemma_fields_nonempty(s: Seq<char>)
    ensures
        fields(s).len() >= 1,
    decreases s.len(),
{
    if s.len() > 0 {
        lemma_fields_nonempty(s.drop_last());
    }
}

/// One more field adds its trimmed text to the tokens when it holds a value.
proof fn lemma_tokens_of_fields_push(fs: Seq<Seq<char>>, f: Seq<char>)
    ensures
        tokens_of_fields(fs.push(f)) == if is_value(trim(f)) {
            tokens_of_fields(fs).push(trim(f))
        } else {
            tokens_of_fields(fs)
        },
{
    let tr = |g: Seq<char>| trim(g);
    let keep = |t: Seq<char>| is_value(t);
    fs.lemma_push_map_commute(tr, f);
    fs.map_values(tr).lemma_filter_push(trim(f), keep);
}

/// Splitting `s` at its end, one character further.
proof fn lemma_fields_step(s: Seq<char>, i: int)
    requires
        0 <= i < s.len(),
    ensures
        fields(s.take(i + 1)) == if s[i] == ',' {
            fields(s.take(i)).push(Seq::<char>::empty())
        } else {
            fields(s.take(i)).update(
                fields(s.take(i)).len() - 1,
                fields(s.take(i)).last().push(s[i]),
            )
        },
{
    assert(s.take(i + 1).drop_last() =~= s.take(i));
}

/// Removing one leading white-space character does not change the trimmed start.
proof fn lemma_trim_start_skip(s: Seq<char>, lo: int, hi: int)
    requires
        0 <= lo < hi <= s.len(),
        is_white_space(s[lo]),
    ensures
        trim_start(s.subrange(lo, hi)) == trim_start(s.subrange(lo + 1, hi)),
{
    assert(s.subrange(lo, hi).drop_first() =~= s.subrange(lo + 1, hi));
}

/// Removing one trailing white-space character does not change the trimmed end.
proof fn lemma_trim_end_skip(s: Seq<char>, lo: int, hi: int)
    requires
        0 <= lo < hi <= s.len(),
        is_white_space(s[hi - 1]),
    ensures
        trim_end(s.subrange(lo, hi)) == trim_end(s.subrange(lo, hi - 1)),
{
    assert(s.subrange(lo, hi).drop_last() =~= s.subrange(lo, hi - 1));
}

/// Whether `c` has Unicode's `White_Space` property.
pub fn is_white_space_char(c: char) -> (b: bool)
    ensures
        b == is_white_space(c),
{
    ('\u{9}' <= c && c <= '\u{d}') || c == ' ' || c == '\u{85}' || c == '\u{a0}' || c
        == '\u{1680}' || ('\u{2000}' <= c && c <= '\u{200a}') || c == '\u{2028}' || c
        == '\u{2029}' || c == '\u{202f}' || c == '\u{205f}' || c == '\u{3000}'
}

/// The bounds, within `start..end`, of that stretch of `chars` with its
/// leading and trailing white space taken off.
fn trimmed_range(chars: &Vec<char>, start: usize, end: usize) -> (range: (usize, usize))
    requires
        start <= end <= chars@.len(),
    ensures
        start <= range.0 <= range.1 <= end,
        chars@.subrange(range.0 as int, range.1 as int) == trim(
            chars@.subrange(start as int, end as int),
        ),
{
    let mut lo = start;
    while lo < end && is_white_space_char(chars[lo])
        invariant
            start <= lo <= end <= chars@.len(),
            trim_start(chars@.subrange(start as int, end as int)) == trim_start(
                chars@.subrange(lo as int, end as int),
            ),
        decreases end - lo,
    {
        proof {
            lemma_trim_start_skip(chars@, lo as int, end as int);
        }
        lo = lo + 1;
    }
    assert(trim_start(chars@.subrange(lo as int, end as int)) == chars@.subrange(
        lo as int,
        end as int,
    ));
    let mut hi = end;
    while hi > lo && is_white_space_char(chars[hi - 1])
        invariant
            start <= lo <= hi <= end <= chars@.len(),
            trim_end(chars@.subrange(lo as int, end as int)) == trim_end(
                chars@.subrange(lo as int, hi as int),
            ),
        decreases hi - lo,
    {
        proof {
            lemma_trim_end_skip(chars@, lo as int, hi as int);
        }
        hi = hi - 1;
    }
    assert(trim_end(chars@.subrange(lo as int, hi as int)) == chars@.subrange(
        lo as int,
        hi as int,
    ));
    (lo, hi)
}

/// A value as it stands in the format: not empty, no white space at either
/// end, and no comma.
pub open spec fn is_token(t: Seq<char>) -> bool {
    &&& t.len() > 0
    &&& !is_white_space(t[0])
    &&& !is_white_space(t.last())
    &&& !t.contains(',')
}

/// Values written one after another with a comma between each two.
pub open spec fn joined(ts: Seq<Seq<char>>) -> Seq<char>
    decreases ts.len(),
{
    if ts.len() == 0 {
        Seq::<char>::empty()
    } else if ts.len() == 1 {
        ts[0]
    } else {
        joined(ts.drop_last()) + seq![','] + ts.last()
    }
}

/// No field holds a comma.
proof fn lemma_fields_no_comma(s: Seq<char>)
    ensures
        forall|k: int| 0 <= k < fields(s).len() ==> !(#[trigger] fields(s)[k]).contains(','),
    decreases s.len(),
{
    if s.len() > 0 {
        let before = fields(s.drop_last());
        lemma_fields_no_comma(s.drop_last());
        lemma_fields_nonempty(s.drop_last());
        if s.last() != ',' {
            let last = before.last().push(s.last());
            assert(!before[before.len() - 1].contains(','));
            assert(!last.contains(',')) by {
                if last.contains(',') {
                    let j = choose|j: int| 0 <= j < last.len() && last[j] == ',';
                    assert(before.last()[j] == ',');
                }
            }
        } else {
            assert forall|k: int| 0 <= k < fields(s).len() implies !(#[trigger] fields(
                s,
            )[k]).contains(',') by {
                if k < before.len() {
                    assert(fields(s)[k] == before[k]);
                } else {
                    assert(fields(s)[k] =~= Seq::<char>::empty());
                }
            }
        }
    }
}

/// Text without commas is a single field.
proof fn lemma_fields_single(s: Seq<char>)
    requires
        !s.contains(','),
    ensures
        fields(s) == seq![s],
    decreases s.len(),
{
    if s.len() > 0 {
        let d = s.drop_last();
        assert(!d.contains(',')) by {
            if d.contains(',') {
                let j = choose|j: int| 0 <= j < d.len() && d[j] == ',';
                assert(s[j] == ',');
            }
        }
        lemma_fields_single(d);
        assert(s[s.len() - 1] != ',');
        assert(d.push(s.last()) =~= s);
        assert(fields(s) =~= seq![s]);
    } else {
        assert(s =~= Seq::<char>::empty());
    }
}

/// The fields of two texts joined by a comma are the fields of the first
/// followed by those of the second.
proof fn lemma_fields_concat(a: Seq<char>, b: Seq<char>)
    ensures
        fields(a + seq![','] + b) == fields(a) + fields(b),
    decreases b.len(),
{
    let c = a + seq![','] + b;
    lemma_fields_nonempty(a);
    if b.len() == 0 {
        assert(c =~= a + seq![',']);
        assert((a + seq![',']).drop_last() =~= a);
        assert(fields(c) =~= fields(a) + fields(b));
    } else {
        let bd = b.drop_last();
        lemma_fields_concat(a, bd);
        lemma_fields_nonempty(bd);
        assert(c.drop_last() =~= a + seq![','] + bd);
        assert(c.last() == b.last());
        let fa = fields(a);
        let fb = fields(bd);
        if b.last() == ',' {
            assert(fields(c) =~= fa + fb.push(Seq::<char>::empty()));
        } else {
            assert((fa + fb).last() == fb.last());
            assert(fields(c) =~= fa + fb.update(fb.len() - 1, fb.last().push(b.last())));
        }
    }
}

/// Tokens of fields side by side are the tokens of each, side by side.
proof fn lemma_tokens_of_fields_concat(x: Seq<Seq<char>>, y: Seq<Seq<char>>)
    ensures
        tokens_of_fields(x + y) == tokens_of_fields(x) + tokens_of_fields(y),
{
    let tr = |g: Seq<char>| trim(g);
    let keep = |t: Seq<char>| is_value(t);
    assert((x + y).map_values(tr) =~= x.map_values(tr) + y.map_values(tr));
    Seq::filter_distributes_over_add(x.map_values(tr), y.map_values(tr), keep);
}

/// Trimming the start drops a prefix of white space.
proof fn lemma_trim_start_suffix(s: Seq<char>) -> (k: int)
    ensures
        0 <= k <= s.len(),
        trim_start(s) == s.subrange(k, s.len() as int),
        trim_start(s).len() > 0 ==> !is_white_space(trim_start(s)[0]),
    decreases s.len(),
{
    if s.len() > 0 && is_white_space(s[0]) {
        let k = lemma_trim_start_suffix(s.drop_first());
        assert(s.drop_first().subrange(k, s.len() - 1) =~= s.subrange(k + 1, s.len() as int));
        k + 1
    } else {
        assert(s.subrange(0, s.len() as int) =~= s);
        0
    }
}

/// Trimming the end drops a suffix of white space.
proof fn lemma_trim_end_prefix(s: Seq<char>) -> (k: int)
    ensures
        0 <= k <= s.len(),
        trim_end(s) == s.subrange(0, k),
        trim_end(s).len() > 0 ==> !is_white_space(trim_end(s).last()),
    decreases s.len(),
{
    if s.len() > 0 && is_white_space(s.last()) {
        let k = lemma_trim_end_prefix(s.drop_last());
        assert(s.drop_last().subrange(0, k) =~= s.subrange(0, k));
        k
    } else {
        assert(s.subrange(0, s.len() as int) =~= s);
        s.len() as int
    }
}

/// Every value of the format is a token: not empty, trimmed, without commas.
pub proof fn lemma_values_are_tokens(s: Seq<char>)
    ensures
        forall|i: int| 0 <= i < value_tokens(s).len() ==> is_token(#[trigger] value_tokens(s)[i]),
{
    let fs = fields(s);
    let tr = |g: Seq<char>| trim(g);
    let keep = |t: Seq<char>| is_value(t);
    let ms = fs.map_values(tr);
    lemma_fields_no_comma(s);
    assert forall|i: int| 0 <= i < value_tokens(s).len() implies is_token(
        #[trigger] value_tokens(s)[i],
    ) by {
        ms.lemma_filter_contains_rev(keep, value_tokens(s)[i]);
        assert(value_tokens(s).contains(value_tokens(s)[i]));
        let k = choose|k: int| 0 <= k < ms.len() && ms[k] == value_tokens(s)[i];
        let f = fs[k];
        let t = value_tokens(s)[i];
        assert(t == trim(f));
        assert(is_value(t)) by {
            ms.lemma_filter_pred(keep, i);
        }
        let a = lemma_trim_start_suffix(f);
        let x = trim_start(f);
        let b = lemma_trim_end_prefix(x);
        assert(t == x.subrange(0, b));
        assert(t[0] == x[0]);
        assert(!t.contains(',')) by {
            if t.contains(',') {
                let j = choose|j: int| 0 <= j < t.len() && t[j] == ',';
                assert(f[a + j] == ',');
            }
        }
    }
}

/// Text holding values split by commas at its top level: splitting text
/// made of two parts joined by a comma gives the values of the first part
/// followed by those of the second.
pub proof fn lemma_value_tokens_concat(a: Seq<char>, b: Seq<char>)
    ensures
        value_tokens(a + seq![','] + b) == value_tokens(a) + value_tokens(b),
{
    lemma_fields_concat(a, b);
    lemma_tokens_of_fields_concat(fields(a), fields(b));
}

/// Writing tokens with a comma between each two and reading them back gives
/// the same tokens.
pub proof fn lemma_join_split_roundtrip(ts: Seq<Seq<char>>)
    requires
        forall|i: int| 0 <= i < ts.len() ==> is_token(#[trigger] ts[i]),
    ensures
        value_tokens(joined(ts)) == ts,
    decreases ts.len(),
{
    if ts.len() == 0 {
        let e = Seq::<char>::empty();
        assert(fields(e) == seq![e]);
        let tr = |g: Seq<char>| trim(g);
        let keep = |t: Seq<char>| is_value(t);
        assert(seq![e].map_values(tr) =~= seq![trim(e)]);
        reveal_with_fuel(Seq::filter, 2);
        assert(seq![trim(e)].filter(keep) =~= Seq::<Seq<char>>::empty());
    } else {
        let t = ts.last();
        assert(is_token(ts[ts.len() - 1]));
        lemma_fields_single(t);
        assert(trim_start(t) == t);
        assert(trim_end(t) == t);
        let tr = |g: Seq<char>| trim(g);
        let keep = |u: Seq<char>| is_value(u);
        assert(seq![t].map_values(tr) =~= seq![t]);
        reveal_with_fuel(Seq::filter, 2);
        assert(seq![t].filter(keep) =~= seq![t]);
        assert(value_tokens(t) == seq![t]);
        if ts.len() == 1 {
            assert(ts =~= seq![t]);
        } else {
            let rest = ts.drop_last();
            lemma_join_split_roundtrip(rest);
            lemma_value_tokens_concat(joined(rest), t);
            assert(ts =~= rest + seq![t]);
        }
    }
}

/// The characters of `text`, in order.
fn chars_of(text: &str) -> (chars: Vec<char>)
    ensures
        chars@ == text@,
{
    broadcast use vstd::string::group_string_axioms;

    let mut chars: Vec<char> = Vec::new();
    for c in it: text.chars()
        invariant
            chars@ == it.seq().take(it.index()),
            it.seq() == text@,
    {
        chars.push(c);
    }
    chars
}

/// The values written in `text`: each comma-separated field with its
/// surrounding white space trimmed off, in order, leaving out the fields that
/// are empty once trimmed. Every token is a slice of `text`.
pub fn split_values<'a>(text: &'a str) -> (tokens: Vec<&'a str>)
    ensures
        tokens@.len() == value_tokens(text@).len(),
        forall|i: int| 0 <= i < tokens@.len() ==> #[trigger] tokens@[i]@ == value_tokens(text@)[i],
{
    let chars = chars_of(text);
    let n = chars.len();
    let mut tokens: Vec<&'a str> = Vec::new();
    let mut start: usize = 0;
    let mut i: usize = 0;
    proof {
        assert(chars@.take(0) =~= Seq::<char>::empty());
        assert(tokens_of_fields(Seq::<Seq<char>>::empty()) =~= Seq::<Seq<char>>::empty());
    }
    while i < n
        invariant
            n == chars@.len(),
            chars@ == text@,
            start <= i <= n,
            fields(chars@.take(i as int)).len() >= 1,
            fields(chars@.take(i as int)).last() == chars@.subrange(start as int, i as int),
            tokens@.len() == tokens_of_fields(fields(chars@.take(i as int)).drop_last()).len(),
            forall|k: int|
                0 <= k < tokens@.len() ==> #[trigger] tokens@[k]@ == tokens_of_fields(
                    fields(chars@.take(i as int)).drop_last(),
                )[k],
        decreases n - i,
    {
        let ghost fs = fields(chars@.take(i as int));
        proof {
            lemma_fields_step(chars@, i as int);
            assert(fs =~= fs.drop_last().push(fs.last()));
        }
        if chars[i] == ',' {
            let (lo, hi) = trimmed_range(&chars, start, i);
            proof {
                lemma_tokens_of_fields_push(fs.drop_last(), fs.last());
                assert(fields(chars@.take(i + 1)).drop_last() =~= fs);
                assert(fields(chars@.take(i + 1)).last() =~= chars@.subrange(
                    (i + 1) as int,
                    (i + 1) as int,
                ));
            }
            if lo < hi {
                let token = text.substring_char(lo, hi);
                tokens.push(token);
            }
            start = i + 1;
        } else {
            proof {
                assert(fields(chars@.take(i + 1)).drop_last() =~= fs.drop_last());
                assert(fields(chars@.take(i + 1)).last() =~= chars@.subrange(
                    start as int,
                    (i + 1) as int,
                ));
            }
        }
        i = i + 1;
    }
    let ghost fs = fields(chars@.take(n as int));
    let (lo, hi) = trimmed_range(&chars, start, n);
    proof {
        assert(chars@.take(n as int) =~= chars@);
        assert(fs =~= fs.drop_last().push(fs.last()));
        lemma_tokens_of_fields_push(fs.drop_last(), fs.last());
    }
    if lo < hi {
        let token = text.substring_char(lo, hi);
        tokens.push(token);
    }
    tokens
}

} // verus!
