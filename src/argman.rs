use vstd::prelude::*;
use crate::table::Table;
use crate::token::{contains_char, split_first, split_once_char};

verus! {

/// The shape of an option's value.
#[derive(Clone, Copy, PartialEq, Eq, Structural, Debug)]
pub enum ArgType {
    /// `0` or `1`; the name alone stands for `1`.
    ArgBool,
    /// A list of strings, one for each time the option is given.
    ArgMultistr,
    /// A string for each category, given as `category.name=value`.
    ArgMapStr,
    /// A single string.
    ArgStr,
}

/// What was declared of one option.
struct ArgumentHelp {
    description: String,
    arg_type: ArgType,
    default: Option<String>,
    default_multi: Vec<String>,
    default_map: Table<String>,
}

/// The declaration of one option, as mathematical values.
pub struct HelpView {
    pub description: Seq<char>,
    pub arg_type: ArgType,
    pub default: Option<Seq<char>>,
    pub default_multi: Seq<Seq<char>>,
    pub default_map: Map<Seq<char>, Seq<char>>,
}

impl DeepView for ArgumentHelp {
    type V = HelpView;

    closed spec fn deep_view(&self) -> HelpView {
        HelpView {
            description: self.description@,
            arg_type: self.arg_type,
            default: match self.default {
                Some(d) => Some(d@),
                None => None,
            },
            default_multi: self.default_multi.deep_view(),
            default_map: self.default_map.deep_view(),
        }
    }
}

/// The registry as mathematical values: the declarations by name, and the values stored for
/// single-string and boolean options, for list options and for category options.
pub struct ArgManView {
    pub help: Map<Seq<char>, HelpView>,
    pub scalars: Map<Seq<char>, Seq<char>>,
    pub lists: Map<Seq<char>, Seq<Seq<char>>>,
    pub cats: Map<Seq<char>, Map<Seq<char>, Seq<char>>>,
}

/// The registry of declared options and of the values that parsing gave them.
pub struct ArgMan {
    args: Table<String>,
    args_help: Table<ArgumentHelp>,
    args_multi: Table<Vec<String>>,
    args_multi_map: Table<Table<String>>,
}

impl View for ArgMan {
    type V = ArgManView;

    closed spec fn view(&self) -> ArgManView {
        ArgManView {
            help: self.args_help.deep_view(),
            scalars: self.args.deep_view(),
            lists: self.args_multi.deep_view(),
            cats: self.args_multi_map.deep_view(),
        }
    }
}

/// The text of a boolean value: `0` or `1`.
pub open spec fn is_bool_literal(s: Seq<char>) -> bool {
    s == seq!['0'] || s == seq!['1']
}

/// Whether `name` is declared with shape `t`.
pub open spec fn declared_as(v: ArgManView, name: Seq<char>, t: ArgType) -> bool {
    v.help.contains_key(name) && v.help[name].arg_type == t
}

/// Every boolean option has a boolean default, and every stored value sits in the store of its
/// option's declared shape, a boolean one being `0` or `1`.
pub open spec fn model_wf(v: ArgManView) -> bool {
    &&& forall|k: Seq<char>| #[trigger]
        declared_as(v, k, ArgType::ArgBool) ==> v.help[k].default is Some && is_bool_literal(
            v.help[k].default->0,
        )
    &&& forall|k: Seq<char>| #[trigger]
        v.scalars.contains_key(k) ==> declared_as(v, k, ArgType::ArgStr) || declared_as(
            v,
            k,
            ArgType::ArgBool,
        )
    &&& forall|k: Seq<char>|
        v.scalars.contains_key(k) && #[trigger] declared_as(v, k, ArgType::ArgBool)
            ==> is_bool_literal(v.scalars[k])
    &&& forall|k: Seq<char>| #[trigger]
        v.lists.contains_key(k) ==> declared_as(v, k, ArgType::ArgMultistr)
    &&& forall|k: Seq<char>| #[trigger] v.cats.contains_key(k) ==> declared_as(v, k, ArgType::ArgMapStr)
}

/// Declaring `name` records its declaration, replacing an earlier one, and drops any value
/// stored for it, so that what is stored always matches the declared shape.
pub open spec fn declare(v: ArgManView, name: Seq<char>, h: HelpView) -> ArgManView {
    ArgManView {
        help: v.help.insert(name, h),
        scalars: v.scalars.remove(name),
        lists: v.lists.remove(name),
        cats: v.cats.remove(name),
    }
}

/// Declaring an option keeps the registry well formed, given a boolean default for a boolean.
proof fn lemma_declare_wf(v: ArgManView, name: Seq<char>, h: HelpView)
    requires
        model_wf(v),
        h.arg_type == ArgType::ArgBool ==> h.default is Some && is_bool_literal(h.default->0),
    ensures
        model_wf(declare(v, name, h)),
{
    let w = declare(v, name, h);
    assert forall|k: Seq<char>| #[trigger] declared_as(w, k, ArgType::ArgBool) implies w.help[k].default is Some
        && is_bool_literal(w.help[k].default->0) by {
        if k != name {
            assert(declared_as(v, k, ArgType::ArgBool));
        }
    }
    assert forall|k: Seq<char>| #[trigger] w.scalars.contains_key(k) implies declared_as(
        w,
        k,
        ArgType::ArgStr,
    ) || declared_as(w, k, ArgType::ArgBool) by {
        assert(v.scalars.contains_key(k));
    }
    assert forall|k: Seq<char>|
        w.scalars.contains_key(k) && #[trigger] declared_as(w, k, ArgType::ArgBool) implies is_bool_literal(
        w.scalars[k],
    ) by {
        assert(v.scalars.contains_key(k));
        assert(declared_as(v, k, ArgType::ArgBool) || declared_as(v, k, ArgType::ArgStr));
    }
    assert forall|k: Seq<char>| #[trigger] w.lists.contains_key(k) implies declared_as(
        w,
        k,
        ArgType::ArgMultistr,
    ) by {
        assert(v.lists.contains_key(k));
    }
    assert forall|k: Seq<char>| #[trigger] w.cats.contains_key(k) implies declared_as(
        w,
        k,
        ArgType::ArgMapStr,
    ) by {
        assert(v.cats.contains_key(k));
    }
}

/// A declaration with no list or category default.
pub open spec fn plain_help(description: Seq<char>, t: ArgType, default: Option<Seq<char>>) -> HelpView {
    HelpView {
        description,
        arg_type: t,
        default,
        default_multi: Seq::empty(),
        default_map: Map::empty(),
    }
}

/// Why an accessor may not be used on a name.
#[derive(Clone, Copy, PartialEq, Eq, Structural, Debug)]
pub enum AccessError {
    /// The name was never declared.
    NotDefined,
    /// The name was declared with another shape.
    WrongShape,
    /// The name has no value: none was given and it has no default.
    NotSet,
}

/// What stops the accessor for shape `t` on `name`, if anything.
pub open spec fn access_error(v: ArgManView, name: Seq<char>, t: ArgType) -> Option<AccessError> {
    if !v.help.contains_key(name) {
        Some(AccessError::NotDefined)
    } else if v.help[name].arg_type != t {
        Some(AccessError::WrongShape)
    } else if !(match t {
        ArgType::ArgStr | ArgType::ArgBool => v.scalars.contains_key(name),
        ArgType::ArgMultistr => v.lists.contains_key(name),
        ArgType::ArgMapStr => v.cats.contains_key(name),
    }) {
        Some(AccessError::NotSet)
    } else {
        None
    }
}

/// Whether `s` is `0` or `1`.
fn is_bool_text(s: &str) -> (r: bool)
    ensures
        r == is_bool_literal(s@),
{
    if s.unicode_len() != 1 {
        return false;
    }
    let c = s.get_char(0);
    assert(s@ =~= seq![c]);
    c == '0' || c == '1'
}

/// A copy of a list of strings.
fn copy_strings(v: &Vec<String>) -> (r: Vec<String>)
    ensures
        r.deep_view() == v.deep_view(),
{
    let mut r: Vec<String> = Vec::new();
    let mut i: usize = 0;
    while i < v.len()
        invariant
            i <= v@.len(),
            r@ == v@.take(i as int),
        decreases v@.len() - i,
    {
        r.push(v[i].clone());
        assert(r@ =~= v@.take(i + 1));
        i = i + 1;
    }
    assert(r@ =~= v@);
    assert(r.deep_view() =~= v.deep_view());
    r
}

impl ArgMan {
    pub open spec fn wf(&self) -> bool {
        model_wf(self@)
    }

    /// An empty registry.
    pub fn new() -> (r: ArgMan)
        ensures
            r.wf(),
            r@.help == Map::<Seq<char>, HelpView>::empty(),
            r@.scalars == Map::<Seq<char>, Seq<char>>::empty(),
            r@.lists == Map::<Seq<char>, Seq<Seq<char>>>::empty(),
            r@.cats == Map::<Seq<char>, Map<Seq<char>, Seq<char>>>::empty(),
    {
        ArgMan {
            args_help: Table::new(),
            args: Table::new(),
            args_multi: Table::new(),
            args_multi_map: Table::new(),
        }
    }

    fn declare(&mut self, name: &str, help: ArgumentHelp)
        requires
            old(self).wf(),
            help.arg_type == ArgType::ArgBool ==> help.default is Some && is_bool_literal(
                help.default->0@,
            ),
        ensures
            final(self).wf(),
            final(self)@ == declare(old(self)@, name@, help.deep_view()),
    {
        let key = name.to_owned();
        let _ = self.args.take(&key);
        let _ = self.args_multi.take(&key);
        let _ = self.args_multi_map.take(&key);
        proof {
            lemma_declare_wf(old(self)@, name@, help.deep_view());
        }
        self.args_help.insert(key, help);
        assert(self@ == declare(old(self)@, name@, help.deep_view()));
    }

    /// Declares a single-string option with no default.
    pub fn add_arg_unset(&mut self, name: &str, description: &str)
        requires
            old(self).wf(),
        ensures
            final(self).wf(),
            final(self)@ == declare(
                old(self)@,
                name@,
                plain_help(description@, ArgType::ArgStr, None),
            ),
    {
        let help = ArgumentHelp {
            arg_type: ArgType::ArgStr,
            default: None,
            default_multi: Vec::new(),
            default_map: Table::new(),
            description: description.to_owned(),
        };
        assert(help.default_multi.deep_view() =~= Seq::<Seq<char>>::empty());
        assert(help.deep_view() == plain_help(description@, ArgType::ArgStr, None));
        self.declare(name, help);
    }

    /// Declares a single-string option with a default.
    pub fn add_arg(&mut self, name: &str, default: String, description: &str)
        requires
            old(self).wf(),
        ensures
            final(self).wf(),
            final(self)@ == declare(
                old(self)@,
                name@,
                plain_help(description@, ArgType::ArgStr, Some(default@)),
            ),
    {
        let ghost d = default@;
        let help = ArgumentHelp {
            arg_type: ArgType::ArgStr,
            default: Some(default),
            default_multi: Vec::new(),
            default_map: Table::new(),
            description: description.to_owned(),
        };
        assert(help.default_multi.deep_view() =~= Seq::<Seq<char>>::empty());
        assert(help.deep_view() == plain_help(description@, ArgType::ArgStr, Some(d)));
        self.declare(name, help);
    }

    /// Declares a boolean option; its default must be `0` or `1`.
    pub fn add_arg_bool(&mut self, name: &str, default: String, description: &str)
        requires
            old(self).wf(),
            is_bool_literal(default@),
        ensures
            final(self).wf(),
            final(self)@ == declare(
                old(self)@,
                name@,
                plain_help(description@, ArgType::ArgBool, Some(default@)),
            ),
    {
        let ghost d = default@;
        let help = ArgumentHelp {
            description: description.to_owned(),
            default: Some(default),
            default_multi: Vec::new(),
            default_map: Table::new(),
            arg_type: ArgType::ArgBool,
        };
        assert(help.default_multi.deep_view() =~= Seq::<Seq<char>>::empty());
        assert(help.deep_view() == plain_help(description@, ArgType::ArgBool, Some(d)));
        self.declare(name, help);
    }

    /// Declares a list option, which may be given any number of times.
    pub fn add_arg_multi(&mut self, name: &str, default_multi: Vec<String>, description: &str)
        requires
            old(self).wf(),
        ensures
            final(self).wf(),
            final(self)@ == declare(
                old(self)@,
                name@,
                (HelpView {
                    description: description@,
                    arg_type: ArgType::ArgMultistr,
                    default: None,
                    default_multi: default_multi.deep_view(),
                    default_map: Map::empty(),
                }),
            ),
    {
        let help = ArgumentHelp {
            description: description.to_owned(),
            default: None,
            default_multi,
            default_map: Table::new(),
            arg_type: ArgType::ArgMultistr,
        };
        self.declare(name, help);
    }

    /// Declares a category option, with a default value for some categories.
    pub fn add_arg_with_category(&mut self, name: &str, default_map: Table<String>, description: &str)
        requires
            old(self).wf(),
        ensures
            final(self).wf(),
            final(self)@ == declare(
                old(self)@,
                name@,
                (HelpView {
                    description: description@,
                    arg_type: ArgType::ArgMapStr,
                    default: None,
                    default_multi: Seq::empty(),
                    default_map: default_map.deep_view(),
                }),
            ),
    {
        let help = ArgumentHelp {
            description: description.to_owned(),
            default: None,
            default_multi: Vec::new(),
            default_map,
            arg_type: ArgType::ArgMapStr,
        };
        assert(help.default_multi.deep_view() =~= Seq::<Seq<char>>::empty());
        self.declare(name, help);
    }

    /// Whether neither a single value nor a list is stored for `arg_name`.
    pub fn is_none(&self, arg_name: &str) -> (r: bool)
        ensures
            r == !(self@.scalars.contains_key(arg_name@) || self@.lists.contains_key(arg_name@)),
    {
        let key = arg_name.to_owned();
        !self.args.contains_key(&key) && !self.args_multi.contains_key(&key)
    }

    /// Says whether the accessor for shape `arg_type` may be used on `arg_name`, and if not, why.
    pub fn check_access(&self, arg_name: &str, arg_type: ArgType) -> (r: Result<(), AccessError>)
        ensures
            r == match access_error(self@, arg_name@, arg_type) {
                Some(e) => Err(e),
                None => Ok::<(), AccessError>(()),
            },
    {
        let key = arg_name.to_owned();
        let declared = match self.args_help.get(&key) {
            Some(h) => h.arg_type,
            None => return Err(AccessError::NotDefined),
        };
        if declared != arg_type {
            return Err(AccessError::WrongShape);
        }
        let set = match arg_type {
            ArgType::ArgStr | ArgType::ArgBool => self.args.contains_key(&key),
            ArgType::ArgMultistr => self.args_multi.contains_key(&key),
            ArgType::ArgMapStr => self.args_multi_map.contains_key(&key),
        };
        if set {
            Ok(())
        } else {
            Err(AccessError::NotSet)
        }
    }

    /// Whether the category option `arg_name` holds a value for `category`.
    pub fn is_category_set(&self, category: &str, arg_name: &str) -> (r: bool)
        ensures
            r == (self@.cats.contains_key(arg_name@) && self@.cats[arg_name@].contains_key(category@)),
    {
        let key = arg_name.to_owned();
        let cat = category.to_owned();
        match self.args_multi_map.get(&key) {
            Some(m) => m.contains_key(&cat),
            None => false,
        }
    }

    /// The value of a single-string option.
    pub fn get(&self, arg_name: &str) -> (r: &str)
        requires
            access_error(self@, arg_name@, ArgType::ArgStr) is None,
        ensures
            r@ == self@.scalars[arg_name@],
    {
        let key = arg_name.to_owned();
        self.args.at(&key).as_str()
    }

    /// The value of a category option for one category.
    pub fn get_by_category(&self, category: &str, arg_name: &str) -> (r: &str)
        requires
            access_error(self@, arg_name@, ArgType::ArgMapStr) is None,
            self@.cats[arg_name@].contains_key(category@),
        ensures
            r@ == self@.cats[arg_name@][category@],
    {
        let key = arg_name.to_owned();
        let cat = category.to_owned();
        self.args_multi_map.at(&key).at(&cat).as_str()
    }

    /// The value of a boolean option: true for `1`, false for `0`.
    pub fn get_bool(&self, arg_name: &str) -> (r: bool)
        requires
            self.wf(),
            access_error(self@, arg_name@, ArgType::ArgBool) is None,
        ensures
            is_bool_literal(self@.scalars[arg_name@]),
            r == (self@.scalars[arg_name@] == seq!['1']),
    {
        let key = arg_name.to_owned();
        let v = self.args.at(&key);
        assert(declared_as(self@, arg_name@, ArgType::ArgBool));
        let c = v.get_char(0);
        assert(v@[0] == c);
        c == '1'
    }

    /// The values of a list option, in the order given.
    pub fn get_multi(&self, arg_name: &str) -> (r: &Vec<String>)
        requires
            access_error(self@, arg_name@, ArgType::ArgMultistr) is None,
        ensures
            r.deep_view() == self@.lists[arg_name@],
    {
        let key = arg_name.to_owned();
        self.args_multi.at(&key)
    }
}

/// Why a token on the command line was refused.
#[derive(Clone, Copy, PartialEq, Eq, Structural, Debug)]
pub enum ParseError {
    /// The token holds more than one `=`.
    TooManyEquals,
    /// The name holds more than one `.`.
    BadCategorySyntax,
    /// No option of that name is declared.
    UnknownArgument,
    /// The token has no `=` but names an option that is not boolean.
    MissingValue,
    /// A category was given for an option without categories, or none for a category option.
    CategoryMismatch,
    /// A boolean option was given a value other than `0` or `1`.
    NotABool,
}

/// How parsing a command line ended.
#[derive(Clone, Copy, PartialEq, Eq, Structural, Debug)]
pub enum ParseOutcome {
    /// Every token was taken and the defaults are in place.
    Ready,
    /// `--help` was given: nothing was changed, and the caller should print the usage and stop.
    HelpRequested,
    /// The token at this position of the command line was refused; the tokens before it were taken.
    Failed(ParseError, usize),
}

/// The name part of a token: what stands before its `=`, or the whole token.
pub open spec fn name_part(tok: Seq<char>) -> Seq<char> {
    if tok.contains('=') {
        split_first(tok, '=').0
    } else {
        tok
    }
}

/// Whether the token names a category, as in `category.name=value`.
pub open spec fn has_category(tok: Seq<char>) -> bool {
    name_part(tok).contains('.')
}

/// The category a token names, or the empty text.
pub open spec fn category_of(tok: Seq<char>) -> Seq<char> {
    if has_category(tok) {
        split_first(name_part(tok), '.').0
    } else {
        Seq::empty()
    }
}

/// The option name a token targets.
pub open spec fn bare_name(tok: Seq<char>) -> Seq<char> {
    if has_category(tok) {
        split_first(name_part(tok), '.').1
    } else {
        name_part(tok)
    }
}

/// The value a token gives: what follows its `=`, or `1` where it has none.
pub open spec fn token_value(tok: Seq<char>) -> Seq<char> {
    if tok.contains('=') {
        split_first(tok, '=').1
    } else {
        seq!['1']
    }
}

/// Why the token is refused in the registry `v`, if it is.
pub open spec fn token_error(v: ArgManView, tok: Seq<char>) -> Option<ParseError> {
    let name = bare_name(tok);
    if tok.contains('=') && split_first(tok, '=').1.contains('=') {
        Some(ParseError::TooManyEquals)
    } else if has_category(tok) && name.contains('.') {
        Some(ParseError::BadCategorySyntax)
    } else if !v.help.contains_key(name) {
        Some(ParseError::UnknownArgument)
    } else if !tok.contains('=') && v.help[name].arg_type != ArgType::ArgBool {
        Some(ParseError::MissingValue)
    } else if has_category(tok) != (v.help[name].arg_type == ArgType::ArgMapStr) {
        Some(ParseError::CategoryMismatch)
    } else if v.help[name].arg_type == ArgType::ArgBool && !is_bool_literal(token_value(tok)) {
        Some(ParseError::NotABool)
    } else {
        None
    }
}

/// Stores `value` for the declared option `name`: a single value replaces the earlier one, a list
/// value is appended, and a category value replaces the earlier one of that category.
pub open spec fn store_value(v: ArgManView, name: Seq<char>, category: Seq<char>, value: Seq<char>) -> ArgManView {
    match v.help[name].arg_type {
        ArgType::ArgStr | ArgType::ArgBool => ArgManView { scalars: v.scalars.insert(name, value), ..v },
        ArgType::ArgMultistr => ArgManView {
            lists: v.lists.insert(
                name,
                if v.lists.contains_key(name) {
                    v.lists[name].push(value)
                } else {
                    seq![value]
                },
            ),
            ..v
        },
        ArgType::ArgMapStr => ArgManView {
            cats: v.cats.insert(
                name,
                if v.cats.contains_key(name) {
                    v.cats[name]
                } else {
                    Map::empty()
                }.insert(category, value),
            ),
            ..v
        },
    }
}

/// What an accepted token does to the registry.
pub open spec fn apply_token(v: ArgManView, tok: Seq<char>) -> ArgManView {
    store_value(v, bare_name(tok), category_of(tok), token_value(tok))
}

/// Takes the tokens in order, stopping at the first refused one: the registry that results, and
/// the error with the position of the refused token, if there was one.
pub open spec fn run_tokens(v: ArgManView, toks: Seq<Seq<char>>) -> (ArgManView, Option<(ParseError, int)>)
    decreases toks.len(),
{
    if toks.len() == 0 {
        (v, None)
    } else {
        let prev = run_tokens(v, toks.drop_last());
        if prev.1 is Some {
            prev
        } else {
            match token_error(prev.0, toks.last()) {
                Some(e) => (prev.0, Some((e, toks.len() - 1))),
                None => (apply_token(prev.0, toks.last()), None),
            }
        }
    }
}

/// Storing the value of an accepted token keeps the registry well formed.
proof fn lemma_apply_token_wf(v: ArgManView, tok: Seq<char>)
    requires
        model_wf(v),
        token_error(v, tok) is None,
    ensures
        model_wf(apply_token(v, tok)),
{
    let w = apply_token(v, tok);
    let name = bare_name(tok);
    assert(w.help == v.help);
    assert forall|k: Seq<char>| #[trigger] declared_as(w, k, ArgType::ArgBool) implies w.help[k].default is Some
        && is_bool_literal(w.help[k].default->0) by {
        assert(declared_as(v, k, ArgType::ArgBool));
    }
    assert forall|k: Seq<char>| #[trigger] w.scalars.contains_key(k) implies declared_as(
        w,
        k,
        ArgType::ArgStr,
    ) || declared_as(w, k, ArgType::ArgBool) by {
        if k != name {
            assert(v.scalars.contains_key(k));
        }
    }
    assert forall|k: Seq<char>|
        w.scalars.contains_key(k) && #[trigger] declared_as(w, k, ArgType::ArgBool) implies is_bool_literal(
        w.scalars[k],
    ) by {
        if k != name {
            assert(v.scalars.contains_key(k));
        }
    }
    assert forall|k: Seq<char>| #[trigger] w.lists.contains_key(k) implies declared_as(
        w,
        k,
        ArgType::ArgMultistr,
    ) by {
        if k != name {
            assert(v.lists.contains_key(k));
        }
    }
    assert forall|k: Seq<char>| #[trigger] w.cats.contains_key(k) implies declared_as(
        w,
        k,
        ArgType::ArgMapStr,
    ) by {
        if k != name {
            assert(v.cats.contains_key(k));
        }
    }
}

impl ArgMan {
    /// Stores `value` for the declared option `key` of shape `arg_type`.
    fn set_arg(&mut self, key: String, category: Option<&str>, value: String, arg_type: ArgType)
        requires
            old(self)@.help.contains_key(key@),
            old(self)@.help[key@].arg_type == arg_type,
        ensures
            final(self)@ == store_value(
                old(self)@,
                key@,
                match category {
                    Some(c) => c@,
                    None => Seq::empty(),
                },
                value@,
            ),
    {
        let ghost v = self@;
        match arg_type {
            ArgType::ArgStr | ArgType::ArgBool => {
                self.args.insert(key, value);
                assert(self@ == store_value(v, key@, Seq::empty(), value@));
            },
            ArgType::ArgMultistr => {
                let ghost k = key@;
                let ghost x = value@;
                let mut list = match self.args_multi.take(&key) {
                    Some(l) => l,
                    None => Vec::new(),
                };
                let ghost before = list.deep_view();
                list.push(value);
                assert(list.deep_view() =~= before.push(x));
                assert(v.lists.contains_key(k) ==> before == v.lists[k]);
                assert(!v.lists.contains_key(k) ==> before =~= Seq::<Seq<char>>::empty());
                self.args_multi.insert(key, list);
                assert(self@.lists =~= store_value(v, k, Seq::empty(), x).lists);
            },
            ArgType::ArgMapStr => {
                let ghost k = key@;
                let ghost x = value@;
                let mut m = match self.args_multi_map.take(&key) {
                    Some(m) => m,
                    None => Table::new(),
                };
                let c = match category {
                    Some(c) => c.to_owned(),
                    None => String::new(),
                };
                m.insert(c, value);
                self.args_multi_map.insert(key, m);
                assert(self@.cats =~= store_value(v, k, c@, x).cats);
            },
        }
    }

    /// Takes one token of the command line, or says why it is refused.
    fn parse_token(&mut self, raw_arg: &str) -> (r: Result<(), ParseError>)
        requires
            old(self).wf(),
        ensures
            final(self).wf(),
            match token_error(old(self)@, raw_arg@) {
                Some(e) => r == Err::<(), ParseError>(e) && final(self)@ == old(self)@,
                None => r is Ok && final(self)@ == apply_token(old(self)@, raw_arg@),
            },
    {
        let (name, given): (&str, Option<&str>) = match split_once_char(raw_arg, '=') {
            Some((n, v)) => {
                if contains_char(v, '=') {
                    return Err(ParseError::TooManyEquals);
                }
                (n, Some(v))
            },
            None => (raw_arg, None),
        };
        assert(name@ == name_part(raw_arg@));
        let (category, bare): (Option<&str>, &str) = match split_once_char(name, '.') {
            Some((c, b)) => {
                if contains_char(b, '.') {
                    return Err(ParseError::BadCategorySyntax);
                }
                (Some(c), b)
            },
            None => (None, name),
        };
        assert(bare@ == bare_name(raw_arg@));
        let key = bare.to_owned();
        let arg_type = match self.args_help.get(&key) {
            Some(h) => h.arg_type,
            None => return Err(ParseError::UnknownArgument),
        };
        assert(arg_type == self@.help[key@].arg_type);
        let value = match given {
            Some(v) => v.to_owned(),
            None => {
                if arg_type != ArgType::ArgBool {
                    return Err(ParseError::MissingValue);
                }
                proof {
                    reveal_strlit("1");
                }
                let one = "1".to_owned();
                assert(one@ =~= seq!['1']);
                one
            },
        };
        assert(value@ == token_value(raw_arg@));
        if category.is_some() != (arg_type == ArgType::ArgMapStr) {
            return Err(ParseError::CategoryMismatch);
        }
        if arg_type == ArgType::ArgBool && !is_bool_text(value.as_str()) {
            return Err(ParseError::NotABool);
        }
        proof {
            lemma_apply_token_wf(self@, raw_arg@);
        }
        self.set_arg(key, category, value, arg_type);
        Ok(())
    }
}

/// Whether the defaulting phase may give `k` its declared single default.
pub open spec fn has_scalar_default(v: ArgManView, k: Seq<char>) -> bool {
    &&& v.help.contains_key(k)
    &&& v.help[k].arg_type == ArgType::ArgStr || v.help[k].arg_type == ArgType::ArgBool
    &&& v.help[k].default is Some
}

/// The registry after the declared default is installed for each name of `ks` that has no value.
pub open spec fn defaults_on(v: ArgManView, ks: Set<Seq<char>>) -> ArgManView {
    ArgManView {
        help: v.help,
        scalars: Map::new(
            |k: Seq<char>| v.scalars.contains_key(k) || (ks.contains(k) && has_scalar_default(v, k)),
            |k: Seq<char>|
                if v.scalars.contains_key(k) {
                    v.scalars[k]
                } else {
                    v.help[k].default->0
                },
        ),
        lists: Map::new(
            |k: Seq<char>|
                v.lists.contains_key(k) || (ks.contains(k) && declared_as(v, k, ArgType::ArgMultistr)),
            |k: Seq<char>|
                if v.lists.contains_key(k) {
                    v.lists[k]
                } else {
                    v.help[k].default_multi
                },
        ),
        cats: Map::new(
            |k: Seq<char>|
                v.cats.contains_key(k) || (ks.contains(k) && declared_as(v, k, ArgType::ArgMapStr)),
            |k: Seq<char>|
                if v.cats.contains_key(k) {
                    v.cats[k]
                } else {
                    v.help[k].default_map
                },
        ),
    }
}

/// The defaulting phase: every declared option without a value gets its declared default, where
/// it has one.
pub open spec fn with_defaults(v: ArgManView) -> ArgManView {
    defaults_on(v, v.help.dom())
}

/// Installing defaults keeps the registry well formed.
proof fn lemma_defaults_wf(v: ArgManView, ks: Set<Seq<char>>)
    requires
        model_wf(v),
    ensures
        model_wf(defaults_on(v, ks)),
{
    let w = defaults_on(v, ks);
    assert forall|k: Seq<char>| #[trigger] declared_as(w, k, ArgType::ArgBool) implies w.help[k].default is Some
        && is_bool_literal(w.help[k].default->0) by {
        assert(declared_as(v, k, ArgType::ArgBool));
    }
    assert forall|k: Seq<char>|
        w.scalars.contains_key(k) && #[trigger] declared_as(w, k, ArgType::ArgBool) implies is_bool_literal(
        w.scalars[k],
    ) by {
        assert(declared_as(v, k, ArgType::ArgBool));
    }
}

/// The tokens of a command line: all but the first, which names the program.
pub open spec fn tokens_of(raw: Seq<Seq<char>>) -> Seq<Seq<char>> {
    if raw.len() == 0 {
        raw
    } else {
        raw.drop_first()
    }
}

/// The token that asks for the usage text.
pub open spec fn help_flag() -> Seq<char> {
    seq!['-', '-', 'h', 'e', 'l', 'p']
}

/// Parsing the command line `raw` in the registry `v`: the registry that results and the outcome.
/// `--help` anywhere stops everything and changes nothing; otherwise the tokens are taken in
/// order up to the first refused one, and only where none is refused are the defaults installed.
pub open spec fn parse_spec(v: ArgManView, raw: Seq<Seq<char>>) -> (ArgManView, ParseOutcome) {
    let toks = tokens_of(raw);
    if toks.contains(help_flag()) {
        (v, ParseOutcome::HelpRequested)
    } else {
        let run = run_tokens(v, toks);
        match run.1 {
            None => (with_defaults(run.0), ParseOutcome::Ready),
            Some(err) => (run.0, ParseOutcome::Failed(err.0, (err.1 + 1) as usize)),
        }
    }
}

/// Once a prefix of the tokens stops at a refused one, the later tokens change nothing.
proof fn lemma_run_tokens_stops(v: ArgManView, toks: Seq<Seq<char>>, n: int)
    requires
        0 <= n <= toks.len(),
        run_tokens(v, toks.take(n)).1 is Some,
    ensures
        run_tokens(v, toks) == run_tokens(v, toks.take(n)),
    decreases toks.len(),
{
    if n == toks.len() {
        assert(toks.take(n) =~= toks);
    } else {
        assert(toks.drop_last().take(n) =~= toks.take(n));
        lemma_run_tokens_stops(v, toks.drop_last(), n);
    }
}

impl ArgMan {
    /// The defaulting phase: gives each declared option without a value its declared default.
    pub fn set_defaults(&mut self)
        requires
            old(self).wf(),
        ensures
            final(self).wf(),
            final(self)@ == with_defaults(old(self)@),
    {
        let ghost v = self@;
        let names = self.args_help.keys();
        proof {
            let none = Set::new(|k: Seq<char>| exists|j: int| 0 <= j < 0 && #[trigger] names@[j]@ == k);
            assert(none =~= Set::empty());
            let w = defaults_on(v, none);
            assert(self@.scalars =~= w.scalars);
            assert(self@.lists =~= w.lists);
            assert(self@.cats =~= w.cats);
        }
        let mut i: usize = 0;
        while i < names.len()
            invariant
                model_wf(v),
                i <= names@.len(),
                forall|k: Seq<char>|
                    v.help.contains_key(k) <==> exists|j: int|
                        0 <= j < names@.len() && #[trigger] names@[j]@ == k,
                self@ == defaults_on(
                    v,
                    Set::new(|k: Seq<char>| exists|j: int| 0 <= j < i && #[trigger] names@[j]@ == k),
                ),
            decreases names@.len() - i,
        {
            let ghost done = Set::new(
                |k: Seq<char>| exists|j: int| 0 <= j < i && #[trigger] names@[j]@ == k,
            );
            let ghost next = Set::new(
                |k: Seq<char>| exists|j: int| 0 <= j < i + 1 && #[trigger] names@[j]@ == k,
            );
            let ghost k = names@[i as int]@;
            assert(next =~= done.insert(k)) by {
                assert forall|x: Seq<char>| next.contains(x) implies done.insert(k).contains(x) by {
                    let j = choose|j: int| 0 <= j < i + 1 && #[trigger] names@[j]@ == x;
                    if j < i {
                        assert(done.contains(x));
                    }
                }
                assert forall|x: Seq<char>| done.insert(k).contains(x) implies next.contains(x) by {
                    if x == k {
                        assert(names@[i as int]@ == x);
                    } else {
                        let j = choose|j: int| 0 <= j < i && #[trigger] names@[j]@ == x;
                        assert(names@[j]@ == x);
                    }
                }
            }
            assert(v.help.contains_key(k)) by {
                assert(names@[i as int]@ == k);
            }
            let key = names[i].clone();
            let h = self.args_help.at(&key);
            match h.arg_type {
                ArgType::ArgStr | ArgType::ArgBool => {
                    if !self.args.contains_key(&key) {
                        match &h.default {
                            Some(d) => {
                                let d = d.clone();
                                self.args.insert(key, d);
                            },
                            None => {},
                        }
                    }
                },
                ArgType::ArgMultistr => {
                    if !self.args_multi.contains_key(&key) {
                        let d = copy_strings(&h.default_multi);
                        self.args_multi.insert(key, d);
                    }
                },
                ArgType::ArgMapStr => {
                    if !self.args_multi_map.contains_key(&key) {
                        let d = h.default_map.duplicate();
                        self.args_multi_map.insert(key, d);
                    }
                },
            }
            let ghost w = defaults_on(v, next);
            assert(self@.scalars =~= w.scalars);
            assert(self@.lists =~= w.lists);
            assert(self@.cats =~= w.cats);
            i = i + 1;
        }
        proof {
            let all = Set::new(
                |k: Seq<char>| exists|j: int| 0 <= j < names@.len() && #[trigger] names@[j]@ == k,
            );
            assert(all =~= v.help.dom());
            lemma_defaults_wf(v, all);
        }
    }

    /// Parses a command line whose first token names the program, and tells how it ended.
    pub fn parse_tokens(&mut self, raw_args: &Vec<String>) -> (r: ParseOutcome)
        requires
            old(self).wf(),
        ensures
            final(self).wf(),
            (final(self)@, r) == parse_spec(old(self)@, raw_args.deep_view()),
    {
        let ghost raw = raw_args.deep_view();
        let ghost toks = tokens_of(raw);
        assert(raw.len() == raw_args@.len());
        proof {
            reveal_strlit("--help");
        }
        let help = "--help".to_owned();
        assert(help@ =~= help_flag());
        let mut i: usize = 1;
        while i < raw_args.len()
            invariant
                raw == raw_args.deep_view(),
                toks == tokens_of(raw),
                help@ == help_flag(),
                self.wf(),
                self@ == old(self)@,
                1 <= i,
                forall|j: int| 0 <= j < i - 1 && j < toks.len() ==> #[trigger] toks[j] != help_flag(),
            decreases raw_args@.len() - i,
        {
            if raw_args[i] == help {
                assert(toks[i - 1] == help_flag());
                return ParseOutcome::HelpRequested;
            }
            assert(toks[i - 1] == raw_args@[i as int]@);
            i = i + 1;
        }
        assert(!toks.contains(help_flag()));
        let ghost v0 = self@;
        let mut i: usize = 1;
        while i < raw_args.len()
            invariant
                raw == raw_args.deep_view(),
                toks == tokens_of(raw),
                !toks.contains(help_flag()),
                v0 == old(self)@,
                self.wf(),
                1 <= i,
                raw.len() == raw_args@.len(),
                i <= raw.len() || i == 1,
                run_tokens(v0, toks.take(i - 1)) == (self@, None::<(ParseError, int)>),
            decreases raw_args@.len() - i,
        {
            assert(toks.take(i as int).drop_last() =~= toks.take(i - 1));
            assert(toks.take(i as int).last() == raw_args@[i as int]@);
            match self.parse_token(raw_args[i].as_str()) {
                Ok(()) => {},
                Err(e) => {
                    proof {
                        assert(run_tokens(v0, toks.take(i as int)) == (self@, Some((e, i - 1))));
                        lemma_run_tokens_stops(v0, toks, i as int);
                    }
                    return ParseOutcome::Failed(e, i);
                },
            }
            assert(run_tokens(v0, toks.take(i as int)) == (self@, None::<(ParseError, int)>));
            i = i + 1;
        }
        assert(toks.take(i - 1) =~= toks);
        self.set_defaults();
        ParseOutcome::Ready
    }

    /// Parses a command line whose first token names the program; true where the program may go on.
    pub fn parse_args_vec(&mut self, raw_args: Vec<String>) -> (r: bool)
        requires
            old(self).wf(),
        ensures
            final(self).wf(),
            final(self)@ == parse_spec(old(self)@, raw_args.deep_view()).0,
            r == (parse_spec(old(self)@, raw_args.deep_view()).1 == ParseOutcome::Ready),
    {
        let outcome = self.parse_tokens(&raw_args);
        match outcome {
            ParseOutcome::Ready => true,
            _ => false,
        }
    }
}

/// One line of the usage text: a declared option, its description and its single default.
pub struct Usage {
    pub name: String,
    pub description: String,
    pub default: Option<String>,
    pub arg_type: ArgType,
}

/// The usage line describes the declaration `h` of `name`.
pub open spec fn describes(u: Usage, name: Seq<char>, h: HelpView) -> bool {
    &&& u.name@ == name
    &&& u.description@ == h.description
    &&& u.arg_type == h.arg_type
    &&& match u.default {
        Some(d) => h.default == Some(d@),
        None => h.default is None,
    }
}

impl ArgMan {
    /// The usage text as lines: one for each declared option.
    pub fn usage_entries(&self) -> (r: Vec<Usage>)
        ensures
            forall|i: int|
                0 <= i < r@.len() ==> self@.help.contains_key(#[trigger] r@[i].name@) && describes(
                    r@[i],
                    r@[i].name@,
                    self@.help[r@[i].name@],
                ),
            forall|k: Seq<char>|
                self@.help.contains_key(k) ==> exists|i: int|
                    0 <= i < r@.len() && #[trigger] r@[i].name@ == k,
    {
        let names = self.args_help.keys();
        let mut r: Vec<Usage> = Vec::new();
        let mut i: usize = 0;
        while i < names.len()
            invariant
                i <= names@.len(),
                r@.len() == i,
                forall|k: Seq<char>|
                    self@.help.contains_key(k) <==> exists|j: int|
                        0 <= j < names@.len() && #[trigger] names@[j]@ == k,
                forall|j: int| 0 <= j < i ==> #[trigger] r@[j].name@ == names@[j]@,
                forall|j: int|
                    0 <= j < i ==> self@.help.contains_key(#[trigger] r@[j].name@) && describes(
                        r@[j],
                        r@[j].name@,
                        self@.help[r@[j].name@],
                    ),
            decreases names@.len() - i,
        {
            let name = names[i].clone();
            assert(self@.help.contains_key(name@)) by {
                assert(names@[i as int]@ == name@);
            }
            let h = self.args_help.at(&name);
            let default = match &h.default {
                Some(d) => Some(d.clone()),
                None => None,
            };
            let u = Usage { name, description: h.description.clone(), default, arg_type: h.arg_type };
            r.push(u);
            i = i + 1;
        }
        proof {
            assert forall|k: Seq<char>| self@.help.contains_key(k) implies exists|j: int|
                0 <= j < r@.len() && #[trigger] r@[j].name@ == k by {
                let j = choose|j: int| 0 <= j < names@.len() && #[trigger] names@[j]@ == k;
                assert(r@[j].name@ == k);
            }
        }
        r
    }
}

} // verus!
