//! Glob patterns over bank names.
//!
//! A pattern is matched against the whole bank name. `::` is two characters like any other, so
//! a `*` crosses it: `REC::*` selects `REC::Particle` and `REC::Traj`, and `*::Particle` selects
//! that bank of every family. A name that is spelt out and is not in the dictionary is an error,
//! and so is a pattern that selects nothing.

use vstd::prelude::*;
use crate::error::{HipoError, Result};
use crate::schema::dict::Dict;
use crate::schema::types::Schema;
#[allow(unused_imports)]
use crate::schema::types::SchemaView;
use crate::text::{
    chars_of, find_char, owned, push_quoted, push_text, split_chars, text_of, trim_chars,
};
#[allow(unused_imports)]
use crate::text::{lacks, lemma_index_of, quoted_text, split, texts, trimmed};

verus! {

/// What the glob library says is wrong with a pattern.
pub uninterp spec fn glob_fault(pattern: Seq<char>) -> Option<Seq<char>>;

/// The glob library matches the pattern with the name.
pub uninterp spec fn glob_matches(pattern: Seq<char>, name: Seq<char>) -> bool;

/// Text without backslashes. Some systems take those for path separators.
pub open spec fn plain(t: Seq<char>) -> bool {
    lacks(t, '\\')
}

/// The text is no plain name: it has a star, a question mark or an opening bracket.
pub open spec fn is_glob(t: Seq<char>) -> bool {
    !(lacks(t, '*') && lacks(t, '?') && lacks(t, '['))
}

/// What is wrong with a pattern. Nothing is wrong with a plain name.
pub open spec fn pattern_fault(pattern: Seq<char>) -> Option<Seq<char>> {
    if is_glob(pattern) {
        glob_fault(pattern)
    } else {
        None
    }
}

/// The pattern matches the name. A plain name matches itself alone.
pub open spec fn pattern_matches(pattern: Seq<char>, name: Seq<char>) -> bool {
    if is_glob(pattern) {
        glob_matches(pattern, name)
    } else {
        pattern == name
    }
}

/// `glob::Pattern::new`: what is wrong with a pattern, in the words of its error. A text without
/// metacharacters is always a pattern. Of a pattern with a backslash nothing is said: what it
/// means depends on the system.
#[verifier::external_body]
fn glob_error(pattern: &str) -> (r: Option<String>)
    ensures
        !is_glob(pattern@) ==> r is None,
        plain(pattern@) && is_glob(pattern@) ==> match r {
            Some(s) => glob_fault(pattern@) == Some(s@),
            None => glob_fault(pattern@) is None,
        },
{
    match glob::Pattern::new(pattern) {
        Ok(_) => None,
        Err(e) => Some(e.to_string()),
    }
}

/// `glob::Pattern::matches`, of the pattern with this text: whether it matches the whole name.
/// A text without metacharacters matches itself alone. Where there is a backslash nothing is
/// said: what it means depends on the system.
#[verifier::external_body]
fn glob_match(pattern: &str, name: &str) -> (r: bool)
    ensures
        plain(pattern@) && plain(name@) && !is_glob(pattern@) ==> r == (pattern@ == name@),
        plain(pattern@) && plain(name@) && is_glob(pattern@) && glob_fault(pattern@) is None ==> r
            == glob_matches(pattern@, name@),
{
    match glob::Pattern::new(pattern) {
        Ok(p) => p.matches(name),
        Err(_) => false,
    }
}

/// Every text is plain.
pub open spec fn all_plain(ts: Seq<Seq<char>>) -> bool {
    forall|i: int| 0 <= i < ts.len() ==> plain(#[trigger] ts[i])
}

/// The names of schemas.
pub open spec fn schema_names(ss: Seq<SchemaView>) -> Seq<Seq<char>> {
    ss.map_values(|s: SchemaView| s.name)
}

/// Some pattern matches the name.
pub open spec fn selects(ts: Seq<Seq<char>>, name: Seq<char>) -> bool {
    exists|i: int| 0 <= i < ts.len() && #[trigger] pattern_matches(ts[i], name)
}

/// The first `n` schemas that some pattern matches, in order.
pub open spec fn selected(ts: Seq<Seq<char>>, ss: Seq<SchemaView>, n: nat) -> Seq<SchemaView>
    decreases n,
{
    if n == 0 {
        Seq::empty()
    } else {
        let before = selected(ts, ss, (n - 1) as nat);
        if selects(ts, ss[n - 1].name) {
            before.push(ss[n - 1])
        } else {
            before
        }
    }
}

/// The pattern matches one of the first `n` schemas.
pub open spec fn hits(t: Seq<char>, ss: Seq<SchemaView>, n: nat) -> bool {
    exists|k: int| 0 <= k < n && #[trigger] pattern_matches(t, ss[k].name)
}

/// Every one of the first `n` patterns matches some schema.
pub open spec fn all_hit(ts: Seq<Seq<char>>, ss: Seq<SchemaView>, n: nat) -> bool {
    forall|i: int| 0 <= i < n ==> hits(#[trigger] ts[i], ss, ss.len())
}

/// The first `n` patterns are well-formed.
pub open spec fn all_sound(ts: Seq<Seq<char>>, n: nat) -> bool {
    forall|i: int| 0 <= i < n ==> pattern_fault(#[trigger] ts[i]) is None
}

/// What `from_slice` says of a pattern that is not well-formed.
pub open spec fn bad_pattern(t: Seq<char>) -> Seq<char> {
    "bad bank pattern "@ + quoted_text(t) + ": "@ + pattern_fault(t)->0
}

/// What `resolve` says of a pattern that matches nothing.
pub open spec fn no_match(t: Seq<char>) -> Seq<char> {
    "bank pattern "@ + quoted_text(t) + " matches no bank in the dictionary"@
}

/// What `from_slice` says where there are no patterns.
pub open spec fn no_patterns() -> Seq<char> {
    "no bank patterns given: a projection that keeps nothing would write empty events"@
}

/// How compiling patterns without backslashes fails: there are none, or the first that is not
/// well-formed is reported.
pub open spec fn compile_fails(ts: Seq<Seq<char>>, what: Seq<char>) -> bool {
    ||| ts.len() == 0 && what == no_patterns()
    ||| exists|i: int| #[trigger] first_bad(ts, i) && what == bad_pattern(ts[i])
}

/// Pattern `i` is the first that is not well-formed.
pub open spec fn first_bad(ts: Seq<Seq<char>>, i: int) -> bool {
    0 <= i < ts.len() && all_sound(ts, i as nat) && pattern_fault(ts[i]) is Some
}

/// How resolving patterns fails: the first that matches nothing is reported.
pub open spec fn resolve_fails(ts: Seq<Seq<char>>, ss: Seq<SchemaView>, e: HipoError) -> bool {
    exists|i: int| #[trigger]
        first_miss(ts, ss, i) && match e {
            HipoError::UnknownSchema { name } => !is_glob(ts[i]) && name@ == ts[i],
            HipoError::SchemaParse(t) => is_glob(ts[i]) && t@ == no_match(ts[i]),
            _ => false,
        }
}

/// Pattern `i` is the first that matches nothing.
pub open spec fn first_miss(ts: Seq<Seq<char>>, ss: Seq<SchemaView>, i: int) -> bool {
    0 <= i < ts.len() && all_hit(ts, ss, i as nat) && !hits(ts[i], ss, ss.len())
}

/// The tokens of a comma-separated list, without the blank ones.
pub open spec fn listed(parts: Seq<Seq<char>>) -> Seq<Seq<char>>
    decreases parts.len(),
{
    if parts.len() == 0 {
        Seq::empty()
    } else {
        let before = listed(parts.drop_last());
        let t = trimmed(parts.last());
        if t.len() == 0 {
            before
        } else {
            before.push(t)
        }
    }
}

/// The patterns of a comma-separated list.
pub open spec fn list_patterns(spec_text: Seq<char>) -> Seq<Seq<char>> {
    listed(split(spec_text, ','))
}

/// A compiled set of bank-name patterns.
#[derive(Debug)]
pub struct BankPatterns {
    patterns: Vec<String>,
}

/// What texts say.
pub open spec fn string_views(v: Seq<String>) -> Seq<Seq<char>> {
    v.map_values(|s: String| s@)
}

impl View for BankPatterns {
    type V = Seq<Seq<char>>;

    closed spec fn view(&self) -> Seq<Seq<char>> {
        string_views(self.patterns@)
    }
}

/// Copies of texts.
fn copied(v: &Vec<String>) -> (r: Vec<String>)
    ensures
        string_views(r@) == string_views(v@),
{
    let mut out: Vec<String> = Vec::new();
    let mut i: usize = 0;
    while i < v.len()
        invariant
            i <= v.len(),
            out.len() == i,
            forall|k: int| 0 <= k < i ==> (#[trigger] out@[k])@ == v@[k]@,
        decreases v.len() - i,
    {
        out.push(owned(v[i].as_str()));
        i = i + 1;
    }
    assert(string_views(out@) =~= string_views(v@));
    out
}

impl Clone for BankPatterns {
    fn clone(&self) -> (r: Self)
        ensures
            r@ == self@,
    {
        proof {
            use_type_invariant(self);
        }
        BankPatterns { patterns: copied(&self.patterns) }
    }
}

/// Whether a text is no plain name.
fn check_glob(t: &str) -> (r: bool)
    ensures
        r == is_glob(t@),
{
    let c = chars_of(t);
    proof {
        lemma_index_of(c@, '*');
        lemma_index_of(c@, '?');
        lemma_index_of(c@, '[');
    }
    find_char(c.as_slice(), '*') < c.len() || find_char(c.as_slice(), '?') < c.len() || find_char(
        c.as_slice(),
        '[',
    ) < c.len()
}

impl BankPatterns {
    /// Plain patterns are well-formed.
    #[verifier::type_invariant]
    pub open spec fn inv(self) -> bool {
        all_plain(self@) ==> all_sound(self@, self@.len())
    }

    /// Compile owned patterns.
    fn compiled(patterns: Vec<String>) -> (r: Result<Self>)
        ensures
            match r {
                Ok(p) => {
                    &&& p@ == string_views(patterns@)
                    &&& patterns.len() > 0
                    &&& all_plain(p@) ==> all_sound(p@, p@.len())
                },
                Err(e) => e is SchemaParse && (all_plain(string_views(patterns@)) ==> compile_fails(
                    string_views(patterns@),
                    e->SchemaParse_0@,
                )),
            },
    {
        let ghost ts = string_views(patterns@);
        if patterns.len() == 0 {
            let what = owned(
                "no bank patterns given: a projection that keeps nothing would write empty events",
            );
            return Err(HipoError::SchemaParse(what));
        }
        let mut i: usize = 0;
        while i < patterns.len()
            invariant
                i <= patterns.len(),
                ts == string_views(patterns@),
                all_plain(ts) ==> all_sound(ts, i as nat),
            decreases patterns.len() - i,
        {
            assert(ts[i as int] == patterns@[i as int]@);
            match glob_error(patterns[i].as_str()) {
                None => {},
                Some(why) => {
                    let mut what: Vec<char> = Vec::new();
                    push_text(&mut what, "bad bank pattern ");
                    push_quoted(&mut what, patterns[i].as_str());
                    push_text(&mut what, ": ");
                    push_text(&mut what, why.as_str());
                    proof {
                        if all_plain(ts) {
                            assert(plain(ts[i as int]));
                            assert(what@ =~= bad_pattern(ts[i as int]));
                            assert(first_bad(ts, i as int));
                        }
                    }
                    return Err(HipoError::SchemaParse(text_of(what.as_slice())));
                },
            }
            proof {
                if all_plain(ts) {
                    assert(plain(ts[i as int]));
                }
            }
            i = i + 1;
        }
        Ok(BankPatterns { patterns })
    }

    /// Compile a comma-separated list of patterns. White space around them is dropped, and blank
    /// ones are skipped.
    pub fn parse(spec_text: &str) -> (r: Result<Self>)
        ensures
            match r {
                Ok(p) => {
                    &&& p@ == list_patterns(spec_text@)
                    &&& p@.len() > 0
                    &&& all_plain(p@) ==> all_sound(p@, p@.len())
                },
                Err(e) => e is SchemaParse && (all_plain(list_patterns(spec_text@))
                    ==> compile_fails(list_patterns(spec_text@), e->SchemaParse_0@)),
            },
    {
        let chars = chars_of(spec_text);
        let parts = split_chars(chars.as_slice(), ',');
        let ghost all = split(spec_text@, ',');
        let mut tokens: Vec<String> = Vec::new();
        let mut i: usize = 0;
        assert(string_views(tokens@) =~= listed(all.subrange(0, 0)));
        while i < parts.len()
            invariant
                i <= parts.len(),
                all == texts(parts@),
                string_views(tokens@) == listed(all.subrange(0, i as int)),
            decreases parts.len() - i,
        {
            let t = trim_chars(parts[i].as_slice());
            let ghost before = string_views(tokens@);
            proof {
                let next = all.subrange(0, i + 1);
                assert(next.drop_last() =~= all.subrange(0, i as int));
                assert(next.last() == parts@[i as int]@);
            }
            if t.len() > 0 {
                tokens.push(text_of(t));
                assert(string_views(tokens@) =~= before.push(t@));
            }
            i = i + 1;
        }
        assert(all.subrange(0, i as int) =~= all);
        BankPatterns::compiled(tokens)
    }

    /// Compile patterns.
    pub fn from_slice(patterns: &[&str]) -> (r: Result<Self>)
        ensures
            match r {
                Ok(p) => {
                    &&& p@ == patterns@.map_values(|s: &str| s@)
                    &&& patterns.len() > 0
                    &&& all_plain(p@) ==> all_sound(p@, p@.len())
                },
                Err(e) => e is SchemaParse && (all_plain(patterns@.map_values(|s: &str| s@))
                    ==> compile_fails(patterns@.map_values(|s: &str| s@), e->SchemaParse_0@)),
            },
    {
        let ghost all = patterns@.map_values(|s: &str| s@);
        let mut tokens: Vec<String> = Vec::new();
        let mut i: usize = 0;
        while i < patterns.len()
            invariant
                i <= patterns.len(),
                all == patterns@.map_values(|s: &str| s@),
                tokens.len() == i,
                forall|k: int| 0 <= k < i ==> (#[trigger] tokens@[k])@ == all[k],
            decreases patterns.len() - i,
        {
            tokens.push(owned(patterns[i]));
            i = i + 1;
        }
        assert(string_views(tokens@) =~= all);
        BankPatterns::compiled(tokens)
    }

    /// Whether some pattern matches a name.
    pub fn matches(&self, name: &str) -> (r: bool)
        ensures
            all_plain(self@) && plain(name@) ==> r == selects(self@, name@),
    {
        proof {
            use_type_invariant(self);
        }
        let ghost ts = self@;
        let mut i: usize = 0;
        while i < self.patterns.len()
            invariant
                i <= self.patterns.len(),
                ts == self@,
                ts == string_views(self.patterns@),
                all_plain(ts) ==> all_sound(ts, ts.len()),
                all_plain(ts) && plain(name@) ==> forall|k: int|
                    0 <= k < i ==> !#[trigger] pattern_matches(ts[k], name@),
            decreases self.patterns.len() - i,
        {
            proof {
                assert(ts[i as int] == self.patterns@[i as int]@);
                if all_plain(ts) {
                    assert(plain(ts[i as int]));
                    assert(pattern_fault(ts[i as int]) is None);
                }
            }
            if glob_match(self.patterns[i].as_str(), name) {
                assert(all_plain(ts) && plain(name@) ==> pattern_matches(ts[i as int], name@));
                return true;
            }
            i = i + 1;
        }
        false
    }

    /// The schemas of a dictionary that some pattern matches, in the dictionary's order. Every
    /// pattern must match some schema.
    pub fn resolve<'d>(&self, dict: &'d Dict) -> (r: Result<Vec<&'d Schema>>)
        ensures
            all_plain(self@) && all_plain(schema_names(dict@.schemas)) ==> match r {
                Ok(v) => {
                    &&& all_hit(self@, dict@.schemas, self@.len())
                    &&& v@.map_values(|s: &Schema| s@) == selected(
                        self@,
                        dict@.schemas,
                        dict@.schemas.len(),
                    )
                },
                Err(e) => resolve_fails(self@, dict@.schemas, e),
            },
    {
        proof {
            use_type_invariant(self);
        }
        let schemas = dict.iter();
        let ghost ts = self@;
        let ghost ss = dict@.schemas;
        let ghost ok = all_plain(ts) && all_plain(schema_names(ss));
        let mut i: usize = 0;
        while i < self.patterns.len()
            invariant
                i <= self.patterns.len(),
                ts == self@,
                ts == string_views(self.patterns@),
                ss == dict@.schemas,
                ok == (all_plain(ts) && all_plain(schema_names(ss))),
                ok ==> all_sound(ts, ts.len()),
                schemas.len() == ss.len(),
                forall|k: int| 0 <= k < ss.len() ==> (#[trigger] schemas@[k])@ == ss[k],
                ok ==> all_hit(ts, ss, i as nat),
            decreases self.patterns.len() - i,
        {
            assert(ts[i as int] == self.patterns@[i as int]@);
            assert(schemas@.map_values(|s: Schema| s@) =~= ss);
            let hit = self.hits_any(i, schemas);
            assert(ok && !hit ==> first_miss(ts, ss, i as int));
            if !hit {
                if !check_glob(self.patterns[i].as_str()) {
                    return Err(
                        HipoError::UnknownSchema { name: owned(self.patterns[i].as_str()) },
                    );
                }
                let mut what: Vec<char> = Vec::new();
                push_text(&mut what, "bank pattern ");
                push_quoted(&mut what, self.patterns[i].as_str());
                push_text(&mut what, " matches no bank in the dictionary");
                assert(what@ =~= no_match(ts[i as int]));
                return Err(HipoError::SchemaParse(text_of(what.as_slice())));
            }
            i = i + 1;
        }
        let mut out: Vec<&'d Schema> = Vec::new();
        let mut k: usize = 0;
        assert(out@.map_values(|s: &Schema| s@) =~= selected(ts, ss, 0));
        while k < schemas.len()
            invariant
                k <= schemas.len(),
                ts == self@,
                ss == dict@.schemas,
                ok == (all_plain(ts) && all_plain(schema_names(ss))),
                schemas.len() == ss.len(),
                forall|j: int| 0 <= j < ss.len() ==> (#[trigger] schemas@[j])@ == ss[j],
                ok ==> out@.map_values(|s: &Schema| s@) == selected(ts, ss, k as nat),
            decreases schemas.len() - k,
        {
            let ghost before = out@.map_values(|s: &Schema| s@);
            proof {
                assert(schemas@[k as int]@ == ss[k as int]);
                if ok {
                    assert(schema_names(ss)[k as int] == ss[k as int].name);
                    assert(plain(schema_names(ss)[k as int]));
                }
            }
            if self.matches(schemas[k].name()) {
                out.push(&schemas[k]);
                assert(out@.map_values(|s: &Schema| s@) =~= before.push(ss[k as int]));
            }
            k = k + 1;
        }
        Ok(out)
    }

    /// Whether pattern `i` matches some schema.
    fn hits_any(&self, i: usize, schemas: &[Schema]) -> (r: bool)
        requires
            i < self@.len(),
        ensures
            ({
                let ss = schemas@.map_values(|s: Schema| s@);
                all_plain(self@) && all_plain(schema_names(ss)) ==> r == hits(
                    self@[i as int],
                    ss,
                    ss.len(),
                )
            }),
    {
        proof {
            use_type_invariant(self);
        }
        let ghost ts = self@;
        let ghost t = self.patterns@[i as int]@;
        let ghost ss = schemas@.map_values(|s: Schema| s@);
        let ghost ok = all_plain(ts) && all_plain(schema_names(ss));
        proof {
            assert(ts[i as int] == t);
            if ok {
                assert(plain(ts[i as int]) && pattern_fault(ts[i as int]) is None);
            }
        }
        let mut k: usize = 0;
        while k < schemas.len()
            invariant
                k <= schemas.len(),
                i < self.patterns.len(),
                t == self.patterns@[i as int]@,
                t == self@[i as int],
                ss == schemas@.map_values(|s: Schema| s@),
                ok == (all_plain(self@) && all_plain(schema_names(ss))),
                ok ==> plain(t) && pattern_fault(t) is None,
                ok ==> forall|j: int| 0 <= j < k ==> !#[trigger] pattern_matches(t, ss[j].name),
            decreases schemas.len() - k,
        {
            proof {
                assert(ss[k as int] == schemas@[k as int]@);
                if ok {
                    assert(schema_names(ss)[k as int] == ss[k as int].name);
                    assert(plain(schema_names(ss)[k as int]));
                }
            }
            if glob_match(self.patterns[i].as_str(), schemas[k].name()) {
                assert(ok ==> pattern_matches(t, ss[k as int].name));
                return true;
            }
            k = k + 1;
        }
        false
    }
}

} // verus!
