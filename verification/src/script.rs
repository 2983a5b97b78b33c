//! Which words may be found by an approximate spelling: those whose script a pattern accepts.
use vstd::prelude::*;
use crate::text;

verus! {

/// A compiled regular expression of the `regex` crate.
#[verifier::external_type_specification]
#[verifier::external_body]
pub struct ExRegex(regex::Regex);

/// Why `regex` did not compile a pattern.
#[verifier::external_type_specification]
#[verifier::external_body]
pub struct ExRegexError(regex::Error);

/// Whether a regular expression finds a match somewhere in `haystack`.
pub uninterp spec fn regex_accepts(re: regex::Regex, haystack: Seq<char>) -> bool;

/// Whether the regular expression that `regex::Regex::new` compiles `pattern` to finds a match
/// somewhere in `haystack`.
pub uninterp spec fn pattern_accepts(pattern: Seq<char>, haystack: Seq<char>) -> bool;

/// `regex::Regex::new`. What it compiles a pattern to is fixed by the pattern. On which patterns
/// it succeeds is left unsaid: besides the syntax, that depends on the size of what the pattern
/// compiles to, which is not the same on every machine.
#[verifier::external_body]
fn compile(pattern: &str) -> (r: Result<regex::Regex, regex::Error>)
    ensures
        r matches Ok(re) ==> forall|haystack: Seq<char>| #[trigger]
            regex_accepts(re, haystack) == pattern_accepts(pattern@, haystack),
{
    regex::Regex::new(pattern)
}

/// `regex::Regex::is_match`. It tells whether there is a match anywhere in the haystack, which
/// depends on the regular expression and the haystack alone.
#[verifier::external_body]
fn is_match(re: &regex::Regex, haystack: &str) -> (r: bool)
    ensures
        r == regex_accepts(*re, haystack@),
{
    re.is_match(haystack)
}

/// Asks a function for what it makes of a pattern.
fn ask<F: Fn(&str) -> Result<regex::Regex, regex::Error>>(f: F, pattern: &str) -> (r: Result<
    regex::Regex,
    regex::Error,
>)
    requires
        call_requires(f, (pattern,)),
    ensures
        call_ensures(f, (pattern,), r),
{
    f(pattern)
}

/// `regex` may refuse to compile a pattern: that is what comes of asking it.
pub closed spec fn may_refuse(pattern: Seq<char>) -> bool {
    exists|p: &str, e: regex::Error|
        p@ == pattern && #[trigger] call_ensures(compile, (p,), Err(e))
}

/// Where `regex` may refuse a pattern, it was asked to compile just that pattern, and did not.
proof fn a_refused_pattern_was_tried(pattern: Seq<char>) -> (r: (&'static str, regex::Error))
    requires
        may_refuse(pattern),
    ensures
        r.0@ == pattern,
        call_ensures(compile, (r.0,), Err(r.1)),
{
    choose|p: &'static str, e: regex::Error|
        p@ == pattern && #[trigger] call_ensures(compile, (p,), Err(e))
}

/// A pattern that tells the words that may be found by an approximate spelling.
#[derive(Debug)]
pub struct ScriptPattern {
    regex: regex::Regex,
}

impl ScriptPattern {
    /// Whether the pattern accepts a word.
    pub closed spec fn accepts(&self, word: Seq<char>) -> bool {
        regex_accepts(self.regex, word)
    }

    /// The pattern accepts the words that the text `pattern` describes.
    pub open spec fn is_compiled_from(&self, pattern: Seq<char>) -> bool {
        forall|word: Seq<char>| #[trigger] self.accepts(word) == pattern_accepts(pattern, word)
    }

    /// Compiles a pattern, if `regex` can.
    pub fn new(pattern: &str) -> (r: Result<ScriptPattern, ScriptError>)
        ensures
            match r {
                Ok(compiled) => compiled.is_compiled_from(pattern@),
                Err(e) => e == ScriptError::BadPattern && may_refuse(pattern@),
            },
    {
        let compiled = ask(compile, pattern);
        proof {
            if compiled is Err {
                assert(call_ensures(compile, (pattern,), Err(compiled->Err_0)));
            }
        }
        ScriptPattern::from_compiled(compiled)
    }

    /// Takes what `regex` made of a pattern.
    pub fn from_compiled(compiled: Result<regex::Regex, regex::Error>) -> (r: Result<
        ScriptPattern,
        ScriptError,
    >)
        ensures
            match compiled {
                Ok(re) => r matches Ok(pattern) && forall|word: Seq<char>| #[trigger]
                    pattern.accepts(word) == regex_accepts(re, word),
                Err(_) => r == Err::<ScriptPattern, ScriptError>(ScriptError::BadPattern),
            },
    {
        match compiled {
            Ok(regex) => Ok(ScriptPattern { regex }),
            Err(_) => Err(ScriptError::BadPattern),
        }
    }

    /// Whether a word may be found by an approximate spelling.
    pub fn can_fuzzy_match(&self, word: &str) -> (r: bool)
        ensures
            r == self.accepts(word@),
    {
        is_match(&self.regex, word)
    }
}

/// Why there is no pattern for some scripts.
#[derive(Debug, PartialEq, Eq, Structural, Clone, Copy)]
pub enum ScriptError {
    /// A script has a name that is not known.
    UnknownScript,
    /// The pattern for the scripts cannot be compiled.
    BadPattern,
}

/// What is known of scripts: `by_name` finds one by its name, and `pattern_for` gives the text of
/// the pattern that accepts the words of some scripts.
pub struct ScriptTable<Q, B> {
    pub by_name: Q,
    pub pattern_for: B,
}

impl<Q, B, S> ScriptTable<Q, B> where Q: Fn(&str) -> Option<S>, B: Fn(&Vec<S>) -> String {
    /// Both lookups can be called with any arguments.
    pub open spec fn callable(&self) -> bool {
        &&& forall|name: &str| #[trigger] call_requires(self.by_name, (name,))
        &&& forall|scripts: &Vec<S>| #[trigger] call_requires(self.pattern_for, (scripts,))
    }

    /// `reply` may come back when a script is looked up.
    pub open spec fn may_get(&self, name: Seq<char>, reply: Option<S>) -> bool {
        exists|n: &str| n@ == name && #[trigger] call_ensures(self.by_name, (n,), reply)
    }

    /// `pattern` may come back when the pattern for some scripts is asked for.
    pub open spec fn may_describe(&self, scripts: Seq<S>, pattern: Seq<char>) -> bool {
        exists|v: &Vec<S>, p: String|
            v@ == scripts && p@ == pattern && #[trigger] call_ensures(self.pattern_for, (v,), p)
    }

    /// `scripts` may be found under the first names of a list.
    pub open spec fn may_get_first(&self, names: Seq<Seq<char>>, scripts: Seq<S>) -> bool {
        &&& scripts.len() <= names.len()
        &&& forall|i: int|
            0 <= i < scripts.len() ==> self.may_get(names[i], Some(#[trigger] scripts[i]))
    }

    /// `outcome` may come of looking up some scripts and compiling the pattern for them: a name
    /// that is not known makes an end to it, and so does a pattern that `regex` refuses.
    pub open spec fn may_compile(
        &self,
        names: Seq<Seq<char>>,
        outcome: Result<ScriptPattern, ScriptError>,
    ) -> bool {
        match outcome {
            Err(ScriptError::UnknownScript) => exists|scripts: Seq<S>| #[trigger]
                self.may_get_first(names, scripts) && scripts.len() < names.len() && self.may_get(
                    names[scripts.len() as int],
                    None,
                ),
            Err(ScriptError::BadPattern) => exists|scripts: Seq<S>, pattern: Seq<char>| #[trigger]
                self.may_get_first(names, scripts) && scripts.len() == names.len() && #[trigger]
                self.may_describe(scripts, pattern) && may_refuse(pattern),
            Ok(compiled) => exists|scripts: Seq<S>, pattern: Seq<char>| #[trigger]
                self.may_get_first(names, scripts) && scripts.len() == names.len() && #[trigger]
                self.may_describe(scripts, pattern) && compiled.is_compiled_from(pattern),
        }
    }

    /// The table is steady: asked again, it replies as before.
    pub open spec fn is_steady(&self) -> bool {
        &&& forall|m: &str, n: &str, a: Option<S>, b: Option<S>| #[trigger]
            call_ensures(self.by_name, (m,), a) && #[trigger] call_ensures(self.by_name, (n,), b) && m@
                == n@ ==> a == b
        &&& forall|v: &Vec<S>, w: &Vec<S>, p: String, q: String| #[trigger]
            call_ensures(self.pattern_for, (v,), p) && #[trigger] call_ensures(
                self.pattern_for,
                (w,),
                q,
            ) && v@ == w@ ==> p@ == q@
    }

    /// The table goes by two functions: `named` finds a script by its name, and `described` gives
    /// the text of the pattern for some scripts.
    pub open spec fn goes_by(
        &self,
        named: spec_fn(Seq<char>) -> Option<S>,
        described: spec_fn(Seq<S>) -> Seq<char>,
    ) -> bool {
        &&& forall|n: &str, reply: Option<S>| #[trigger]
            call_ensures(self.by_name, (n,), reply) ==> reply == named(n@)
        &&& forall|v: &Vec<S>, p: String| #[trigger]
            call_ensures(self.pattern_for, (v,), p) ==> p@ == described(v@)
    }

    /// The pattern for some names is that of just the scripts with these names: it accepts a word
    /// if and only if the text that describes these scripts, in this order, does. There is none
    /// where a name is not known.
    pub proof fn a_pattern_is_that_of_the_named_scripts(
        &self,
        named: spec_fn(Seq<char>) -> Option<S>,
        described: spec_fn(Seq<S>) -> Seq<char>,
        names: Seq<Seq<char>>,
        outcome: Result<ScriptPattern, ScriptError>,
    )
        requires
            self.goes_by(named, described),
            self.may_compile(names, outcome),
        ensures
            outcome == Err::<ScriptPattern, ScriptError>(ScriptError::UnknownScript) <==> exists|i: int|
                0 <= i < names.len() && named(#[trigger] names[i]) is None,
            outcome matches Ok(pattern) ==> forall|word: Seq<char>| #[trigger]
                pattern.accepts(word) == pattern_accepts(
                    described(Seq::new(names.len(), |i: int| named(names[i])->Some_0)),
                    word,
                ),
    {
        match outcome {
            Err(ScriptError::UnknownScript) => {
                let scripts = choose|scripts: Seq<S>| #[trigger]
                    self.may_get_first(names, scripts) && scripts.len() < names.len() && self.may_get(
                        names[scripts.len() as int],
                        None,
                    );
                assert(named(names[scripts.len() as int]) is None);
            },
            Err(ScriptError::BadPattern) => {
                let (scripts, pattern) = choose|scripts: Seq<S>, pattern: Seq<char>| #[trigger]
                    self.may_get_first(names, scripts) && scripts.len() == names.len() && #[trigger]
                    self.may_describe(scripts, pattern) && may_refuse(pattern);
                assert forall|i: int| 0 <= i < names.len() implies named(#[trigger] names[i]) is Some by {
                    assert(self.may_get(names[i], Some(scripts[i])));
                }
            },
            Ok(compiled) => {
                let (scripts, pattern) = choose|scripts: Seq<S>, pattern: Seq<char>| #[trigger]
                    self.may_get_first(names, scripts) && scripts.len() == names.len() && #[trigger]
                    self.may_describe(scripts, pattern) && compiled.is_compiled_from(pattern);
                let all = Seq::new(names.len(), |i: int| named(names[i])->Some_0);
                assert forall|i: int| 0 <= i < names.len() implies named(#[trigger] names[i]) == Some(
                    scripts[i],
                ) by {
                    assert(self.may_get(names[i], Some(scripts[i])));
                }
                assert(scripts =~= all);
            },
        }
    }

    /// Where the table is steady, all the patterns that are compiled for the same scripts accept
    /// the same words.
    pub proof fn patterns_for_the_same_scripts_agree(
        &self,
        names: Seq<Seq<char>>,
        a: ScriptPattern,
        b: ScriptPattern,
        word: Seq<char>,
    )
        requires
            self.is_steady(),
            self.may_compile(names, Ok(a)),
            self.may_compile(names, Ok(b)),
        ensures
            a.accepts(word) == b.accepts(word),
    {
        let (s, p) = choose|scripts: Seq<S>, pattern: Seq<char>| #[trigger]
            self.may_get_first(names, scripts) && scripts.len() == names.len() && #[trigger]
            self.may_describe(scripts, pattern) && a.is_compiled_from(pattern);
        let (t, q) = choose|scripts: Seq<S>, pattern: Seq<char>| #[trigger]
            self.may_get_first(names, scripts) && scripts.len() == names.len() && #[trigger]
            self.may_describe(scripts, pattern) && b.is_compiled_from(pattern);
        assert forall|i: int| 0 <= i < s.len() implies s[i] == #[trigger] t[i] by {
            assert(self.may_get(names[i], Some(s[i])));
            assert(self.may_get(names[i], Some(t[i])));
        }
        assert(s =~= t);
        assert(p == q);
    }

    /// Looks up some scripts, and compiles the pattern for them. Which texts of a pattern can be
    /// compiled is up to the `regex` crate.
    pub fn compile(&self, names: &Vec<String>) -> (r: Result<ScriptPattern, ScriptError>)
        requires
            self.callable(),
        ensures
            self.may_compile(text::texts(names@), r),
    {
        let ghost all = text::texts(names@);
        let mut scripts: Vec<S> = Vec::new();
        let mut i: usize = 0;
        while i < names.len()
            invariant
                self.callable(),
                all == text::texts(names@),
                i <= names@.len(),
                scripts@.len() == i,
                self.may_get_first(all, scripts@),
            decreases names@.len() - i,
        {
            let reply = (self.by_name)(names[i].as_str());
            assert(self.may_get(all[i as int], reply));
            match reply {
                Some(script) => scripts.push(script),
                None => {
                    return Err(ScriptError::UnknownScript);
                },
            }
            i = i + 1;
        }
        let pattern = (self.pattern_for)(&scripts);
        assert(self.may_describe(scripts@, pattern@));
        ScriptPattern::new(pattern.as_str())
    }
}

} // verus!
