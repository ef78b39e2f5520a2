//! Building SQL text from a template with numbered placeholders (`$0`, `$1`,
//! ...) and bound values, each escaped before it is put in place.

use vstd::prelude::*;

use crate::text::{chars_of, decimal, occurs_at, push_char, push_decimal, replace_all, replaced};

verus! {

/// The escaped form of one character of a bound value: `\` and `'` are
/// doubled, `"` and `` ` `` get a backslash in front, every other character
/// is kept.
pub open spec fn escape_char(c: char) -> Seq<char> {
    if c == '\\' {
        seq!['\\', '\\']
    } else if c == '\'' {
        seq!['\'', '\'']
    } else if c == '"' {
        seq!['\\', '"']
    } else if c == '`' {
        seq!['\\', '`']
    } else {
        seq![c]
    }
}

/// The escaped form of a bound value, character by character.
pub open spec fn sanitized(s: Seq<char>) -> Seq<char>
    decreases s.len(),
{
    if s.len() == 0 {
        Seq::empty()
    } else {
        escape_char(s[0]) + sanitized(s.skip(1))
    }
}

/// The four replacements that `bind` applies to a value, in the order it
/// applies them: `\` by `\\`, then `'` by `''`, then `"` by `\"`, then
/// `` ` `` by `` \` ``.
pub open spec fn bind_replacements(s: Seq<char>) -> Seq<char> {
    replaced(
        replaced(
            replaced(replaced(s, seq!['\\'], seq!['\\', '\\']), seq!['\''], seq!['\'', '\'']),
            seq!['"'],
            seq!['\\', '"'],
        ),
        seq!['`'],
        seq!['\\', '`'],
    )
}

/// The placeholder of the value bound in position `i`: `$` and `i` in decimal.
pub open spec fn placeholder(i: nat) -> Seq<char> {
    seq!['$'] + decimal(i)
}

/// The smallest index `j` in `from..n` whose placeholder starts the text
/// `t`, if any.
pub open spec fn first_match(t: Seq<char>, n: nat, from: nat) -> Option<nat>
    decreases n - from,
{
    if from >= n {
        None
    } else if placeholder(from).len() <= t.len() && t.take(placeholder(from).len() as int)
        == placeholder(from) {
        Some(from)
    } else {
        first_match(t, n, from + 1)
    }
}

/// The SQL text that a template gives once the values are put in place, in
/// one pass over the template from the left: where the placeholder of some
/// bound value starts, the value of the smallest such index is written and
/// its placeholder skipped; every other character is kept. Text that comes
/// from a value is never read again.
pub open spec fn filled(t: Seq<char>, values: Seq<Seq<char>>) -> Seq<char>
    decreases t.len(),
{
    if t.len() == 0 {
        Seq::empty()
    } else {
        match first_match(t, values.len(), 0) {
            Some(i) => if 0 < placeholder(i).len() <= t.len() {
                values[i as int] + filled(t.skip(placeholder(i).len() as int), values)
            } else {
                Seq::empty()
            },
            None => seq![t[0]] + filled(t.skip(1), values),
        }
    }
}

/// A SQL template and the (escaped) values bound to its placeholders so far.
pub struct QueryBuilder {
    query: String,
    values: Vec<String>,
}

impl QueryBuilder {
    /// The SQL template, as given to `new`.
    pub closed spec fn template(&self) -> Seq<char> {
        self.query@
    }

    /// The escaped values bound so far, in the order of binding.
    pub closed spec fn bound(&self) -> Seq<Seq<char>> {
        self.values@.map_values(|v: String| v@)
    }

    /// A builder for the template `query`, with no value bound.
    pub fn new(query: &str) -> (r: Self)
        ensures
            r.template() == query@,
            r.bound() == Seq::<Seq<char>>::empty(),
    {
        let r = QueryBuilder { query: query.to_owned(), values: Vec::new() };
        assert(r.bound() =~= Seq::<Seq<char>>::empty());
        r
    }

    /// Binds the next value (the text form of the value, as `to_string` gives
    /// it); it goes to the placeholder `$n`, where `n` counts the values bound
    /// before it. The value is escaped first.
    pub fn bind(self, value: &str) -> (r: Self)
        ensures
            r.template() == self.template(),
            r.bound() == self.bound().push(sanitized(value@)),
            r.bound() == self.bound().push(bind_replacements(value@)),
    {
        let backslash = vec!['\\'];
        let quote = vec!['\''];
        let dquote = vec!['"'];
        let backtick = vec!['`'];
        assert(backslash@ =~= seq!['\\']);
        assert(quote@ =~= seq!['\'']);
        assert(dquote@ =~= seq!['"']);
        assert(backtick@ =~= seq!['`']);
        let step0 = replace_all(value, &backslash, "\\\\");
        let step1 = replace_all(step0.as_str(), &quote, "''");
        let step2 = replace_all(step1.as_str(), &dquote, "\\\"");
        let sanitized_value = replace_all(step2.as_str(), &backtick, "\\`");
        proof {
            reveal_strlit("\\\\");
            reveal_strlit("''");
            reveal_strlit("\\\"");
            reveal_strlit("\\`");
            assert("\\\\"@ =~= seq!['\\', '\\']);
            assert("''"@ =~= seq!['\'', '\'']);
            assert("\\\""@ =~= seq!['\\', '"']);
            assert("\\`"@ =~= seq!['\\', '`']);
            lemma_bind_replacements_escape(value@);
            assert(sanitized_value@ == sanitized(value@));
        }
        let QueryBuilder { query, mut values } = self;
        let ghost old_values = values@;
        values.push(sanitized_value);
        let r = QueryBuilder { query, values };
        assert(r.bound() =~= old_values.map_values(|v: String| v@).push(sanitized(value@)));
        r
    }

    /// The SQL text with every bound value put in place of its placeholder
    /// (see `filled`).
    pub fn generate_query(&self) -> (r: String)
        ensures
            r@ == filled(self.template(), self.bound()),
    {
        let ghost vals = self.bound();
        let n = self.values.len();
        let mut pats: Vec<Vec<char>> = Vec::new();
        for i in 0..n
            invariant
                pats@.len() == i,
                forall|j: int| 0 <= j < i ==> (#[trigger] pats@[j])@ == placeholder(j as nat),
        {
            let mut pat = String::new();
            push_char(&mut pat, '$');
            push_decimal(&mut pat, i);
            let pat_chars = chars_of(pat.as_str());
            assert(pat_chars@ =~= placeholder(i as nat));
            pats.push(pat_chars);
        }
        let cs = chars_of(self.query.as_str());
        let len = cs.len();
        let mut out = String::new();
        let mut pos: usize = 0;
        assert(cs@.skip(0) =~= cs@);
        while pos < len
            invariant
                len == cs@.len(),
                cs@ == self.template(),
                vals == self.bound(),
                n == vals.len(),
                n == self.values@.len(),
                pats@.len() == n,
                forall|j: int| 0 <= j < n ==> (#[trigger] pats@[j])@ == placeholder(j as nat),
                pos <= len,
                out@ + filled(cs@.skip(pos as int), vals) == filled(cs@, vals),
            decreases len - pos,
        {
            let ghost rest = cs@.skip(pos as int);
            let mut found: Option<usize> = None;
            let mut i: usize = 0;
            while i < n && found.is_none()
                invariant
                    n == vals.len(),
                    pats@.len() == n,
                    forall|j: int| 0 <= j < n ==> (#[trigger] pats@[j])@ == placeholder(j as nat),
                    pos < len == cs@.len(),
                    rest == cs@.skip(pos as int),
                    i <= n,
                    found is None ==> first_match(rest, n as nat, 0) == first_match(
                        rest,
                        n as nat,
                        i as nat,
                    ),
                    found matches Some(k) ==> k < n && first_match(rest, n as nat, 0) == Some(
                        k as nat,
                    ),
                decreases n - i,
            {
                let hit = occurs_at(&cs, pos, &pats[i]);
                proof {
                    let pl = placeholder(i as nat).len() as int;
                    assert(pl <= rest.len() ==> rest.take(pl) =~= cs@.subrange(
                        pos as int,
                        pos + pl,
                    ));
                }
                if hit {
                    found = Some(i);
                }
                i = i + 1;
            }
            match found {
                Some(k) => {
                    let pl = pats[k].len();
                    proof {
                        lemma_first_match_some(rest, n as nat, 0);
                        lemma_placeholder_starts_with_dollar(k as nat);
                        assert(pats@[k as int]@ == placeholder(k as nat));
                        assert(pl == placeholder(k as nat).len());
                        assert(pl <= rest.len());
                        assert(rest.skip(pl as int) =~= cs@.skip(pos + pl));
                    }
                    out.append(self.values[k].as_str());
                    pos = pos + pl;
                    proof {
                        assert(self.values@[k as int]@ == vals[k as int]);
                        assert(out@ + filled(cs@.skip(pos as int), vals) =~= filled(cs@, vals));
                    }
                },
                None => {
                    assert(first_match(rest, n as nat, n as nat) is None);
                    assert(rest.skip(1) =~= cs@.skip(pos + 1));
                    push_char(&mut out, cs[pos]);
                    pos = pos + 1;
                    assert(out@ + filled(cs@.skip(pos as int), vals) =~= filled(cs@, vals));
                },
            }
        }
        assert(cs@.skip(len as int) =~= Seq::<char>::empty());
        assert(out@ + Seq::<char>::empty() =~= out@);
        out
    }
}

/// Creates a builder for the SQL template `query` (the same as
/// `QueryBuilder::new`).
pub fn query(sql: &str) -> (r: QueryBuilder)
    ensures
        r.template() == sql@,
        r.bound() == Seq::<Seq<char>>::empty(),
{
    QueryBuilder::new(sql)
}

/// The text `s` with every occurrence of the character `p` replaced by `r`.
pub open spec fn map_char(s: Seq<char>, p: char, r: Seq<char>) -> Seq<char>
    decreases s.len(),
{
    if s.len() == 0 {
        Seq::empty()
    } else {
        (if s[0] == p {
            r
        } else {
            seq![s[0]]
        }) + map_char(s.skip(1), p, r)
    }
}

proof fn lemma_replace_one_char(s: Seq<char>, p: char, r: Seq<char>)
    ensures
        replaced(s, seq![p], r) == map_char(s, p, r),
    decreases s.len(),
{
    if s.len() > 0 {
        lemma_replace_one_char(s.skip(1), p, r);
        assert(s.take(1) =~= seq![s[0]]);
        if s[0] == p {
            assert(s.take(1) =~= seq![p]);
        } else {
            assert(s.take(1)[0] != seq![p][0]);
        }
    }
}

proof fn lemma_map_char_concat(a: Seq<char>, b: Seq<char>, p: char, r: Seq<char>)
    ensures
        map_char(a + b, p, r) == map_char(a, p, r) + map_char(b, p, r),
    decreases a.len(),
{
    if a.len() == 0 {
        assert(a + b =~= b);
        assert(Seq::<char>::empty() + map_char(b, p, r) =~= map_char(b, p, r));
    } else {
        lemma_map_char_concat(a.skip(1), b, p, r);
        assert((a + b).skip(1) =~= a.skip(1) + b);
        assert((a + b)[0] == a[0]);
        let h = if a[0] == p {
            r
        } else {
            seq![a[0]]
        };
        assert(h + (map_char(a.skip(1), p, r) + map_char(b, p, r)) =~= (h + map_char(
            a.skip(1),
            p,
            r,
        )) + map_char(b, p, r));
    }
}

/// The four successive replacements of `bind` amount to escaping each
/// character on its own.
proof fn lemma_bind_replacements_escape(s: Seq<char>)
    ensures
        bind_replacements(s) == sanitized(s),
    decreases s.len(),
{
    let k = seq!['\\', '\\'];
    let q = seq!['\'', '\''];
    let d = seq!['\\', '"'];
    let b = seq!['\\', '`'];
    lemma_replace_one_char(s, '\\', k);
    let s0 = map_char(s, '\\', k);
    lemma_replace_one_char(s0, '\'', q);
    let s1 = map_char(s0, '\'', q);
    lemma_replace_one_char(s1, '"', d);
    let s2 = map_char(s1, '"', d);
    lemma_replace_one_char(s2, '`', b);
    if s.len() > 0 {
        let rest = s.skip(1);
        lemma_bind_replacements_escape(rest);
        lemma_replace_one_char(rest, '\\', k);
        let r0 = map_char(rest, '\\', k);
        lemma_replace_one_char(r0, '\'', q);
        let r1 = map_char(r0, '\'', q);
        lemma_replace_one_char(r1, '"', d);
        let r2 = map_char(r1, '"', d);
        lemma_replace_one_char(r2, '`', b);
        let h0 = if s[0] == '\\' {
            k
        } else {
            seq![s[0]]
        };
        assert(s0 == h0 + r0);
        lemma_map_char_concat(h0, r0, '\'', q);
        let h1 = map_char(h0, '\'', q);
        lemma_map_char_concat(h1, r1, '"', d);
        let h2 = map_char(h1, '"', d);
        lemma_map_char_concat(h2, r2, '`', b);
        let h3 = map_char(h2, '`', b);
        assert(h3 == escape_char(s[0])) by {
            reveal_with_fuel(map_char, 3);
            if s[0] == '\\' {
                assert(h1 =~= k);
                assert(h2 =~= k);
                assert(h3 =~= k);
            } else if s[0] == '\'' {
                assert(h1 =~= q);
                assert(h2 =~= q);
                assert(h3 =~= q);
            } else if s[0] == '"' {
                assert(h1 =~= seq!['"']);
                assert(h2 =~= d);
                assert(h3 =~= d);
            } else if s[0] == '`' {
                assert(h1 =~= seq!['`']);
                assert(h2 =~= seq!['`']);
                assert(h3 =~= b);
            } else {
                assert(h1 =~= seq![s[0]]);
                assert(h2 =~= seq![s[0]]);
                assert(h3 =~= seq![s[0]]);
            }
        }
    } else {
        assert(s0 =~= s);
        assert(s1 =~= s);
        assert(s2 =~= s);
    }
}

/// How MySQL reads the inside of a single-quoted string literal: `''` is one
/// `'`, a backslash and the character after it are that character (for the
/// escapes that `bind` writes), every other character is itself.
pub open spec fn unescaped(t: Seq<char>) -> Seq<char>
    decreases t.len(),
{
    if t.len() == 0 {
        Seq::empty()
    } else if t.len() >= 2 && t[0] == '\'' && t[1] == '\'' {
        seq!['\''] + unescaped(t.skip(2))
    } else if t.len() >= 2 && t[0] == '\\' {
        seq![t[1]] + unescaped(t.skip(2))
    } else {
        seq![t[0]] + unescaped(t.skip(1))
    }
}

/// `t`, put between the double quotes of a string literal, does not end it:
/// reading as MySQL does, a backslash takes the next character with it, and
/// only a `"` on its own ends the literal; a lone backslash at the end would
/// take the closing quote.
pub open spec fn stays_inside_double_quotes(t: Seq<char>) -> bool
    decreases t.len(),
{
    if t.len() == 0 {
        true
    } else if t[0] == '\\' {
        t.len() >= 2 && stays_inside_double_quotes(t.skip(2))
    } else if t[0] == '"' {
        false
    } else {
        stays_inside_double_quotes(t.skip(1))
    }
}

/// `t`, put between the single quotes of a string literal, does not end it:
/// a backslash takes the next character with it, `''` is a quote inside the
/// literal, and a `'` on its own ends it.
pub open spec fn stays_inside_single_quotes(t: Seq<char>) -> bool
    decreases t.len(),
{
    if t.len() == 0 {
        true
    } else if t[0] == '\\' {
        t.len() >= 2 && stays_inside_single_quotes(t.skip(2))
    } else if t[0] == '\'' {
        t.len() >= 2 && t[1] == '\'' && stays_inside_single_quotes(t.skip(2))
    } else {
        stays_inside_single_quotes(t.skip(1))
    }
}

proof fn lemma_sanitized_unfold(s: Seq<char>)
    requires
        s.len() > 0,
    ensures
        sanitized(s) == escape_char(s[0]) + sanitized(s.skip(1)),
{
}

/// Bound values are safe inside string literals: the escaped text of any
/// value, put between the double quotes or the single quotes of a string
/// literal of the template, never ends that literal.
pub proof fn lemma_escaped_value_stays_inside_literal(s: Seq<char>)
    ensures
        stays_inside_double_quotes(sanitized(s)),
        stays_inside_single_quotes(sanitized(s)),
    decreases s.len(),
{
    if s.len() > 0 {
        let rest = s.skip(1);
        lemma_escaped_value_stays_inside_literal(rest);
        lemma_sanitized_unfold(s);
        let e = escape_char(s[0]);
        let r = sanitized(rest);
        let t = sanitized(s);
        assert(t == e + r);
        if e.len() == 2 {
            assert(t.skip(2) =~= r);
            if s[0] == '\'' {
                let u = t.skip(1);
                assert(u =~= seq!['\''] + r);
                assert(u[0] == '\'');
                assert(u.skip(1) =~= r);
                assert(stays_inside_double_quotes(u));
            }
        } else {
            assert(t.skip(1) =~= r);
        }
    }
}

/// Escaping loses nothing: reading an escaped value as the inside of a
/// single-quoted literal gives the value back.
pub proof fn lemma_unescape_escaped(s: Seq<char>)
    ensures
        unescaped(sanitized(s)) == s,
    decreases s.len(),
{
    if s.len() > 0 {
        let rest = s.skip(1);
        lemma_unescape_escaped(rest);
        lemma_sanitized_unfold(s);
        let e = escape_char(s[0]);
        let r = sanitized(rest);
        let t = sanitized(s);
        assert(t == e + r);
        if e.len() == 2 {
            assert(t.skip(2) =~= r);
        } else {
            assert(t.skip(1) =~= r);
        }
        assert(seq![s[0]] + rest =~= s);
    } else {
        assert(sanitized(s) =~= Seq::<char>::empty());
    }
}

/// What `first_match` finds is an index in range whose placeholder starts
/// the text.
proof fn lemma_first_match_some(t: Seq<char>, n: nat, from: nat)
    ensures
        first_match(t, n, from) matches Some(k) ==> from <= k < n && placeholder(k).len()
            <= t.len() && t.take(placeholder(k).len() as int) == placeholder(k),
    decreases n - from,
{
    if from < n {
        lemma_first_match_some(t, n, from + 1);
    }
}

proof fn lemma_placeholder_starts_with_dollar(j: nat)
    ensures
        placeholder(j).len() >= 2,
        placeholder(j)[0] == '$',
{
    crate::text::lemma_decimal_not_empty(j);
}

/// A text that does not start with `$` starts no placeholder.
proof fn lemma_no_match_without_dollar(t: Seq<char>, n: nat, from: nat)
    requires
        t.len() > 0,
        t[0] != '$',
    ensures
        first_match(t, n, from) is None,
    decreases n - from,
{
    if from < n {
        lemma_placeholder_starts_with_dollar(from);
        if placeholder(from).len() <= t.len() {
            assert(t.take(placeholder(from).len() as int)[0] == t[0]);
        }
        lemma_no_match_without_dollar(t, n, from + 1);
    }
}

/// Template text without `$` passes through unchanged, before whatever
/// follows it.
proof fn lemma_plain_prefix(a: Seq<char>, b: Seq<char>, values: Seq<Seq<char>>)
    requires
        !a.contains('$'),
    ensures
        filled(a + b, values) == a + filled(b, values),
    decreases a.len(),
{
    if a.len() == 0 {
        assert(a + b =~= b);
        assert(a + filled(b, values) =~= filled(b, values));
    } else {
        let t = a + b;
        assert(t[0] == a[0]);
        assert(a[0] != '$') by {
            if a[0] == '$' {
                assert(a.contains('$'));
            }
        }
        lemma_no_match_without_dollar(t, values.len(), 0);
        assert(!a.skip(1).contains('$')) by {
            if a.skip(1).contains('$') {
                let k = choose|k: int| 0 <= k < a.skip(1).len() && a.skip(1)[k] == '$';
                assert(a[k + 1] == '$');
            }
        }
        assert(t.skip(1) =~= a.skip(1) + b);
        lemma_plain_prefix(a.skip(1), b, values);
        assert(seq![a[0]] + (a.skip(1) + filled(b, values)) =~= a + filled(b, values));
    }
}

/// A template without any `$` has no placeholder: whatever values are bound,
/// the generated SQL is the template itself.
pub proof fn lemma_template_without_placeholder(template: Seq<char>, values: Seq<Seq<char>>)
    requires
        !template.contains('$'),
    ensures
        filled(template, values) == template,
{
    lemma_plain_prefix(template, Seq::empty(), values);
    assert(template + Seq::<char>::empty() =~= template);
}

/// With no value bound, the generated SQL is the template unchanged.
pub proof fn lemma_no_values_no_change(template: Seq<char>)
    ensures
        filled(template, Seq::empty()) == template,
    decreases template.len(),
{
    if template.len() > 0 {
        lemma_no_values_no_change(template.skip(1));
        assert(seq![template[0]] + template.skip(1) =~= template);
    }
}

/// A bound value is put in as it is, never read again for placeholders:
/// with one value bound, a template `a$0b` whose `a` and `b` hold no `$`
/// gives `a`, the value, then `b`, whatever the value holds.
pub proof fn lemma_value_put_in_verbatim(a: Seq<char>, b: Seq<char>, v: Seq<char>)
    requires
        !a.contains('$'),
        !b.contains('$'),
    ensures
        filled(a + placeholder(0) + b, seq![v]) == a + v + b,
{
    let vals = seq![v];
    let p = placeholder(0);
    lemma_placeholder_starts_with_dollar(0);
    assert(a + p + b =~= a + (p + b));
    lemma_plain_prefix(a, p + b, vals);
    let t = p + b;
    assert(t.take(p.len() as int) =~= p);
    assert(first_match(t, 1, 0) == Some(0nat));
    assert(t.skip(p.len() as int) =~= b);
    lemma_template_without_placeholder(b, vals);
    assert(filled(t, vals) == v + b);
    assert(a + (v + b) =~= a + v + b);
}

/// The placeholder of a one-digit index is `$` and that digit.
proof fn lemma_short_placeholder(j: nat)
    requires
        j < 10,
    ensures
        placeholder(j) == seq!['$', crate::text::digit_char(j as int)],
{
    assert(placeholder(j) =~= seq!['$', crate::text::digit_char(j as int)]);
}

/// At a placeholder of a one-digit index `i`, no smaller index matches, so
/// `i` is the one found.
proof fn lemma_first_match_short(t: Seq<char>, n: nat, from: nat, i: nat)
    requires
        from <= i < n,
        i < 10,
        placeholder(i).len() <= t.len(),
        t.take(placeholder(i).len() as int) == placeholder(i),
    ensures
        first_match(t, n, from) == Some(i),
    decreases i - from,
{
    lemma_short_placeholder(i);
    if from < i {
        lemma_short_placeholder(from);
        assert(t[1] == crate::text::digit_char(i as int)) by {
            assert(t.take(2)[1] == t[1]);
        }
        if t.take(placeholder(from).len() as int) == placeholder(from) {
            assert(t.take(2)[1] == crate::text::digit_char(from as int));
        }
        lemma_first_match_short(t, n, from + 1, i);
    }
}

/// Every bound value reaches its placeholder: where the template reads
/// `$i` for a bound index `i` below 10, after text without `$`, the
/// generated SQL holds that text, then the `i`-th value, then whatever the
/// rest of the template gives, whatever the values hold and however many
/// there are.
pub proof fn lemma_bound_value_fills_placeholder(
    a: Seq<char>,
    rest: Seq<char>,
    values: Seq<Seq<char>>,
    i: nat,
)
    requires
        i < values.len(),
        i < 10,
        !a.contains('$'),
    ensures
        filled(a + placeholder(i) + rest, values) == a + values[i as int] + filled(rest, values),
{
    let p = placeholder(i);
    lemma_short_placeholder(i);
    assert(a + p + rest =~= a + (p + rest));
    lemma_plain_prefix(a, p + rest, values);
    let t = p + rest;
    assert(t.take(p.len() as int) =~= p);
    lemma_first_match_short(t, values.len(), 0, i);
    assert(t.skip(p.len() as int) =~= rest);
    assert(filled(t, values) == values[i as int] + filled(rest, values));
    assert(a + (values[i as int] + filled(rest, values)) =~= a + values[i as int] + filled(
        rest,
        values,
    ));
}

/// With `a` and `b` free of `$`, the template `a$ib` for a bound index `i`
/// below 10 gives `a`, the `i`-th value verbatim, then `b`.
pub proof fn lemma_value_put_in_its_place(
    a: Seq<char>,
    b: Seq<char>,
    values: Seq<Seq<char>>,
    i: nat,
)
    requires
        i < values.len(),
        i < 10,
        !a.contains('$'),
        !b.contains('$'),
    ensures
        filled(a + placeholder(i) + b, values) == a + values[i as int] + b,
{
    lemma_bound_value_fills_placeholder(a, b, values, i);
    lemma_template_without_placeholder(b, values);
}

/// Escaping touches only `\`, `'`, `"` and `` ` ``: any other character is
/// kept as it is, each special character keeps its place behind one added
/// `\` or `'`, and escaping a joined text escapes each part.
pub proof fn lemma_escape_touches_only_quotes(c: char, s: Seq<char>, t: Seq<char>)
    ensures
        c != '\\' && c != '\'' && c != '"' && c != '`' ==> escape_char(c) == seq![c],
        (c == '\\' || c == '\'' || c == '"' || c == '`') ==> escape_char(c).len() == 2
            && escape_char(c)[1] == c && (escape_char(c)[0] == '\\' || escape_char(c)[0]
            == '\''),
        sanitized(s + t) == sanitized(s) + sanitized(t),
{
    lemma_sanitized_concat(s, t);
}

proof fn lemma_sanitized_concat(s: Seq<char>, t: Seq<char>)
    ensures
        sanitized(s + t) == sanitized(s) + sanitized(t),
    decreases s.len(),
{
    if s.len() == 0 {
        assert(s + t =~= t);
        assert(sanitized(s) + sanitized(t) =~= sanitized(t));
    } else {
        lemma_sanitized_concat(s.skip(1), t);
        assert((s + t).skip(1) =~= s.skip(1) + t);
        assert((s + t)[0] == s[0]);
        lemma_sanitized_unfold(s + t);
        lemma_sanitized_unfold(s);
        assert(escape_char(s[0]) + (sanitized(s.skip(1)) + sanitized(t)) =~= (escape_char(s[0])
            + sanitized(s.skip(1))) + sanitized(t));
    }
}

/// A value that holds none of `\`, `'`, `"` and `` ` `` is bound exactly as
/// it is given.
pub proof fn lemma_plain_value_unescaped(s: Seq<char>)
    requires
        forall|k: int| 0 <= k < s.len() ==> s[k] != '\\' && s[k] != '\'' && s[k] != '"' && s[k]
            != '`',
    ensures
        sanitized(s) == s,
    decreases s.len(),
{
    if s.len() > 0 {
        lemma_plain_value_unescaped(s.skip(1));
        lemma_sanitized_unfold(s);
        assert(seq![s[0]] + s.skip(1) =~= s);
    }
}

} // verus!
