use vstd::prelude::*;
use crate::argman::{
    access_error, apply_token, bare_name, category_of, declared_as, help_flag, model_wf,
    parse_spec, run_tokens, token_error, token_value, tokens_of, AccessError, ArgManView, ArgType,
    ParseError, ParseOutcome,
};
use crate::token::{lemma_split_first_at, split_first};

verus! {

/// Parsing never changes the declarations.
proof fn lemma_run_help(v: ArgManView, toks: Seq<Seq<char>>)
    ensures
        run_tokens(v, toks).0.help == v.help,
    decreases toks.len(),
{
    if toks.len() > 0 {
        lemma_run_help(v, toks.drop_last());
    }
}

/// A run that refuses no token refused none of the earlier ones, and took the last one.
proof fn lemma_run_last(v: ArgManView, toks: Seq<Seq<char>>)
    requires
        toks.len() > 0,
        run_tokens(v, toks).1 is None,
    ensures
        run_tokens(v, toks.drop_last()).1 is None,
        token_error(run_tokens(v, toks.drop_last()).0, toks.last()) is None,
        run_tokens(v, toks).0 == apply_token(run_tokens(v, toks.drop_last()).0, toks.last()),
{
}

/// Tokens that target other names leave the values stored for `name` as they were.
proof fn lemma_run_untouched(v: ArgManView, toks: Seq<Seq<char>>, name: Seq<char>)
    requires
        forall|i: int| 0 <= i < toks.len() ==> bare_name(#[trigger] toks[i]) != name,
    ensures
        run_tokens(v, toks).0.scalars.contains_key(name) == v.scalars.contains_key(name),
        v.scalars.contains_key(name) ==> run_tokens(v, toks).0.scalars[name] == v.scalars[name],
        run_tokens(v, toks).0.lists.contains_key(name) == v.lists.contains_key(name),
        v.lists.contains_key(name) ==> run_tokens(v, toks).0.lists[name] == v.lists[name],
        run_tokens(v, toks).0.cats.contains_key(name) == v.cats.contains_key(name),
        v.cats.contains_key(name) ==> run_tokens(v, toks).0.cats[name] == v.cats[name],
    decreases toks.len(),
{
    if toks.len() > 0 {
        let t = toks.drop_last();
        assert forall|i: int| 0 <= i < t.len() implies bare_name(#[trigger] t[i]) != name by {
            assert(t[i] == toks[i]);
        }
        lemma_run_untouched(v, t, name);
        assert(bare_name(toks[toks.len() - 1]) != name);
    }
}

/// A token that every registry with the same declarations refuses makes the run fail.
proof fn lemma_run_fails(v: ArgManView, toks: Seq<Seq<char>>, j: int)
    requires
        0 <= j < toks.len(),
        forall|w: ArgManView| w.help == v.help ==> (#[trigger] token_error(w, toks[j])) is Some,
    ensures
        run_tokens(v, toks).1 is Some,
    decreases toks.len(),
{
    let t = toks.drop_last();
    lemma_run_help(v, t);
    if j < toks.len() - 1 {
        assert(t[j] == toks[j]);
        lemma_run_fails(v, t, j);
    } else {
        assert(token_error(run_tokens(v, t).0, toks[j]) is Some);
    }
}

/// `--help` anywhere among the tokens ends parsing with a request for the usage text, whatever
/// the other tokens hold, and leaves the registry unchanged.
pub proof fn law_help_stops(v: ArgManView, raw: Seq<Seq<char>>, j: int)
    requires
        1 <= j < raw.len(),
        raw[j] == help_flag(),
    ensures
        parse_spec(v, raw) == (v, ParseOutcome::HelpRequested),
{
    assert(tokens_of(raw)[j - 1] == raw[j]);
}

/// An occurrence of `c` at `a` means a first occurrence at or before `a`.
proof fn lemma_first_occurrence(s: Seq<char>, c: char, a: int) -> (p: int)
    requires
        0 <= a < s.len(),
        s[a] == c,
    ensures
        0 <= p <= a,
        s[p] == c,
        forall|q: int| 0 <= q < p ==> s[q] != c,
    decreases a,
{
    if exists|q: int| 0 <= q < a && s[q] == c {
        let q = choose|q: int| 0 <= q < a && s[q] == c;
        lemma_first_occurrence(s, c, q)
    } else {
        a
    }
}

/// A token with two or more `=` is refused in every registry.
pub proof fn law_two_equals_refused(tok: Seq<char>, a: int, b: int)
    requires
        0 <= a < b < tok.len(),
        tok[a] == '=',
        tok[b] == '=',
    ensures
        forall|w: ArgManView| #[trigger] token_error(w, tok) == Some(ParseError::TooManyEquals),
{
    let p = lemma_first_occurrence(tok, '=', a);
    lemma_split_first_at(tok, '=', p);
    assert(tok.contains('='));
    let after = split_first(tok, '=').1;
    assert(after[b - p - 1] == tok[b]);
    assert(after.contains('='));
}

/// A command line holding a token with two or more `=` never parses to a ready state.
pub proof fn law_two_equals_fail(v: ArgManView, raw: Seq<Seq<char>>, j: int, a: int, b: int)
    requires
        1 <= j < raw.len(),
        0 <= a < b < raw[j].len(),
        raw[j][a] == '=',
        raw[j][b] == '=',
    ensures
        parse_spec(v, raw).1 != ParseOutcome::Ready,
{
    law_two_equals_refused(raw[j], a, b);
    let toks = tokens_of(raw);
    assert(toks[j - 1] == raw[j]);
    if !toks.contains(help_flag()) {
        lemma_run_fails(v, toks, j - 1);
    }
}

/// A token without `=` naming a declared option is refused where the option is not boolean, and
/// stores `1` where it is.
pub proof fn law_bare_token(v: ArgManView, tok: Seq<char>)
    requires
        !tok.contains('='),
        !tok.contains('.'),
        v.help.contains_key(tok),
    ensures
        v.help[tok].arg_type != ArgType::ArgBool ==> token_error(v, tok) == Some(
            ParseError::MissingValue,
        ),
        v.help[tok].arg_type == ArgType::ArgBool ==> token_error(v, tok) is None && apply_token(
            v,
            tok,
        ).scalars[tok] == seq!['1'],
{
}

/// A command line of one token without `=` naming a declared option fails at that token where
/// the option is not boolean, and is ready with `1` stored where it is.
pub proof fn law_bare_token_parse(v: ArgManView, raw: Seq<Seq<char>>)
    requires
        raw.len() == 2,
        !raw[1].contains('='),
        !raw[1].contains('.'),
        raw[1] != help_flag(),
        v.help.contains_key(raw[1]),
    ensures
        v.help[raw[1]].arg_type != ArgType::ArgBool ==> parse_spec(v, raw).1
            == ParseOutcome::Failed(ParseError::MissingValue, 1),
        v.help[raw[1]].arg_type == ArgType::ArgBool ==> parse_spec(v, raw).1 == ParseOutcome::Ready
            && parse_spec(v, raw).0.scalars[raw[1]] == seq!['1'],
{
    let tok = raw[1];
    law_bare_token(v, tok);
    let toks = tokens_of(raw);
    assert(toks =~= seq![tok]);
    assert(toks.drop_last() =~= Seq::<Seq<char>>::empty());
    assert(run_tokens(v, toks.drop_last()) == (v, None::<(ParseError, int)>));
    assert(!toks.contains(help_flag())) by {
        if toks.contains(help_flag()) {
            let i = choose|i: int| 0 <= i < toks.len() && toks[i] == help_flag();
            assert(toks[i] == tok);
        }
    }
}

/// The accessors may not be used on an undeclared name, nor on a name declared with another shape.
pub proof fn law_access_checks(v: ArgManView, name: Seq<char>, t: ArgType)
    ensures
        !v.help.contains_key(name) ==> access_error(v, name, t) == Some(AccessError::NotDefined),
        v.help.contains_key(name) && v.help[name].arg_type != t ==> access_error(v, name, t) == Some(
            AccessError::WrongShape,
        ),
{
}

/// An option declared with a default, holding no value, and given by no token of a command line
/// that parses, holds its declared default afterwards.
pub proof fn law_default_when_not_given(v: ArgManView, raw: Seq<Seq<char>>, name: Seq<char>)
    requires
        v.help.contains_key(name),
        !v.scalars.contains_key(name),
        !v.lists.contains_key(name),
        !v.cats.contains_key(name),
        forall|i: int| 0 <= i < tokens_of(raw).len() ==> bare_name(#[trigger] tokens_of(raw)[i]) != name,
        parse_spec(v, raw).1 == ParseOutcome::Ready,
    ensures
        (v.help[name].arg_type == ArgType::ArgStr || v.help[name].arg_type == ArgType::ArgBool)
            && v.help[name].default is Some ==> parse_spec(v, raw).0.scalars.contains_key(name)
            && parse_spec(v, raw).0.scalars[name] == v.help[name].default->0,
        v.help[name].arg_type == ArgType::ArgMultistr ==> parse_spec(v, raw).0.lists.contains_key(name)
            && parse_spec(v, raw).0.lists[name] == v.help[name].default_multi,
        v.help[name].arg_type == ArgType::ArgMapStr ==> parse_spec(v, raw).0.cats.contains_key(name)
            && parse_spec(v, raw).0.cats[name] == v.help[name].default_map,
{
    let toks = tokens_of(raw);
    lemma_run_untouched(v, toks, name);
    lemma_run_help(v, toks);
}

/// After a command line parses, every declared boolean, list and category option has a value.
pub proof fn law_values_present(v: ArgManView, raw: Seq<Seq<char>>, name: Seq<char>)
    requires
        model_wf(v),
        v.help.contains_key(name),
        v.help[name].arg_type != ArgType::ArgStr,
        parse_spec(v, raw).1 == ParseOutcome::Ready,
    ensures
        access_error(parse_spec(v, raw).0, name, v.help[name].arg_type) is None,
{
    lemma_run_help(v, tokens_of(raw));
    assert(declared_as(v, name, v.help[name].arg_type));
}

/// The value a single-string or boolean option holds after a run is that of the last token
/// targeting it.
proof fn lemma_run_last_scalar(v: ArgManView, toks: Seq<Seq<char>>, name: Seq<char>, j: int)
    requires
        run_tokens(v, toks).1 is None,
        declared_as(v, name, ArgType::ArgStr) || declared_as(v, name, ArgType::ArgBool),
        0 <= j < toks.len(),
        bare_name(toks[j]) == name,
        forall|m: int| j < m < toks.len() ==> bare_name(#[trigger] toks[m]) != name,
    ensures
        run_tokens(v, toks).0.scalars.contains_key(name),
        run_tokens(v, toks).0.scalars[name] == token_value(toks[j]),
    decreases toks.len(),
{
    let t = toks.drop_last();
    lemma_run_last(v, toks);
    lemma_run_help(v, t);
    if j < toks.len() - 1 {
        assert forall|m: int| j < m < t.len() implies bare_name(#[trigger] t[m]) != name by {
            assert(t[m] == toks[m]);
        }
        assert(t[j] == toks[j]);
        lemma_run_last_scalar(v, t, name, j);
        assert(bare_name(toks[toks.len() - 1]) != name);
    }
}

/// A single-string or boolean option given several times holds the value of its last occurrence.
pub proof fn law_last_write_wins(v: ArgManView, raw: Seq<Seq<char>>, name: Seq<char>, j: int)
    requires
        parse_spec(v, raw).1 == ParseOutcome::Ready,
        declared_as(v, name, ArgType::ArgStr) || declared_as(v, name, ArgType::ArgBool),
        1 <= j < raw.len(),
        bare_name(raw[j]) == name,
        forall|m: int| j < m < raw.len() ==> bare_name(#[trigger] raw[m]) != name,
    ensures
        parse_spec(v, raw).0.scalars.contains_key(name),
        parse_spec(v, raw).0.scalars[name] == token_value(raw[j]),
{
    let toks = tokens_of(raw);
    assert(toks[j - 1] == raw[j]);
    assert forall|m: int| j - 1 < m < toks.len() implies bare_name(#[trigger] toks[m]) != name by {
        assert(toks[m] == raw[m + 1]);
    }
    lemma_run_last_scalar(v, toks, name, j - 1);
}

/// The values that the tokens give the option `name`, in order.
pub open spec fn values_for(toks: Seq<Seq<char>>, name: Seq<char>) -> Seq<Seq<char>>
    decreases toks.len(),
{
    if toks.len() == 0 {
        Seq::empty()
    } else if bare_name(toks.last()) == name {
        values_for(toks.drop_last(), name).push(token_value(toks.last()))
    } else {
        values_for(toks.drop_last(), name)
    }
}

/// A list option holding no value before a run holds afterwards the values given to it, in order.
proof fn lemma_run_list(v: ArgManView, toks: Seq<Seq<char>>, name: Seq<char>)
    requires
        run_tokens(v, toks).1 is None,
        declared_as(v, name, ArgType::ArgMultistr),
        !v.lists.contains_key(name),
    ensures
        run_tokens(v, toks).0.lists.contains_key(name) == (values_for(toks, name).len() > 0),
        values_for(toks, name).len() > 0 ==> run_tokens(v, toks).0.lists[name] == values_for(toks, name),
    decreases toks.len(),
{
    if toks.len() > 0 {
        let t = toks.drop_last();
        lemma_run_last(v, toks);
        lemma_run_help(v, t);
        lemma_run_list(v, t, name);
        if bare_name(toks.last()) == name && values_for(t, name).len() == 0 {
            assert(values_for(toks, name) =~= seq![token_value(toks.last())]);
        }
    }
}

/// A list option given N times holds exactly the N values in the order given, whatever its
/// declared default.
pub proof fn law_list_in_order(v: ArgManView, raw: Seq<Seq<char>>, name: Seq<char>)
    requires
        parse_spec(v, raw).1 == ParseOutcome::Ready,
        declared_as(v, name, ArgType::ArgMultistr),
        !v.lists.contains_key(name),
        values_for(tokens_of(raw), name).len() > 0,
    ensures
        parse_spec(v, raw).0.lists.contains_key(name),
        parse_spec(v, raw).0.lists[name] == values_for(tokens_of(raw), name),
{
    lemma_run_list(v, tokens_of(raw), name);
}

/// The value a category option holds for a category after a run is that of the last token
/// targeting that option and category.
proof fn lemma_run_last_category(
    v: ArgManView,
    toks: Seq<Seq<char>>,
    name: Seq<char>,
    cat: Seq<char>,
    j: int,
)
    requires
        run_tokens(v, toks).1 is None,
        declared_as(v, name, ArgType::ArgMapStr),
        0 <= j < toks.len(),
        bare_name(toks[j]) == name,
        category_of(toks[j]) == cat,
        forall|m: int|
            j < m < toks.len() ==> !(bare_name(#[trigger] toks[m]) == name && category_of(toks[m])
                == cat),
    ensures
        run_tokens(v, toks).0.cats.contains_key(name),
        run_tokens(v, toks).0.cats[name].contains_key(cat),
        run_tokens(v, toks).0.cats[name][cat] == token_value(toks[j]),
    decreases toks.len(),
{
    let t = toks.drop_last();
    lemma_run_last(v, toks);
    lemma_run_help(v, t);
    if j < toks.len() - 1 {
        assert forall|m: int| j < m < t.len() implies !(bare_name(#[trigger] t[m]) == name
            && category_of(t[m]) == cat) by {
            assert(t[m] == toks[m]);
        }
        assert(t[j] == toks[j]);
        lemma_run_last_category(v, t, name, cat, j);
        let last = toks[toks.len() - 1];
        assert(!(bare_name(last) == name && category_of(last) == cat));
    }
}

/// A category option given as `category.name=value` holds that value for that category, the last
/// such token winning.
pub proof fn law_category_value(
    v: ArgManView,
    raw: Seq<Seq<char>>,
    name: Seq<char>,
    cat: Seq<char>,
    j: int,
)
    requires
        parse_spec(v, raw).1 == ParseOutcome::Ready,
        declared_as(v, name, ArgType::ArgMapStr),
        1 <= j < raw.len(),
        bare_name(raw[j]) == name,
        category_of(raw[j]) == cat,
        forall|m: int|
            j < m < raw.len() ==> !(bare_name(#[trigger] raw[m]) == name && category_of(raw[m])
                == cat),
    ensures
        parse_spec(v, raw).0.cats.contains_key(name),
        parse_spec(v, raw).0.cats[name].contains_key(cat),
        parse_spec(v, raw).0.cats[name][cat] == token_value(raw[j]),
{
    let toks = tokens_of(raw);
    assert(toks[j - 1] == raw[j]);
    assert forall|m: int| j - 1 < m < toks.len() implies !(bare_name(#[trigger] toks[m]) == name
        && category_of(toks[m]) == cat) by {
        assert(toks[m] == raw[m + 1]);
    }
    lemma_run_last_category(v, toks, name, cat, j - 1);
}

} // verus!
