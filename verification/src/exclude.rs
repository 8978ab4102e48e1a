//! Exclusion of paths by glob patterns, applied at discovery so that matched transcripts never
//! enter the index.

use vstd::prelude::*;
use crate::model::Modeled;
use crate::outside::{
    add_glob, any_glob_matches, builder_patterns, compile_globs, few_braces, glob_matches,
    glob_parses, new_glob_set, open_braces, parse_glob, read_on, reading_at, set_compiles,
    set_patterns, Reading, MAX_BRACE_DEPTH,
};
use crate::path::{byte_parts, FilePath};
use crate::text::characters;

verus! {

/// Why patterns are refused.
pub enum ExcludeError {
    /// This pattern cannot be parsed.
    InvalidPattern(String),
    /// The patterns cannot be compiled together.
    NotCompiled,
}

/// Excludes the paths that a set of patterns matches. Without patterns nothing is excluded.
pub struct PathExcluder {
    set: Option<globset::GlobSet>,
}

/// Some pattern matches the path.
pub open spec fn any_matches(patterns: Seq<Seq<char>>, path: Seq<u8>) -> bool {
    exists|i: int|
        0 <= i && i < patterns.len() && glob_matches(#[trigger] patterns[i], path)
}

/// A path is excluded if it is matched, or if its canonical form differs from it and is.
pub open spec fn excluded_by(
    patterns: Seq<Seq<char>>,
    path: Seq<u8>,
    canonical: Option<Seq<u8>>,
) -> bool {
    ||| any_matches(patterns, path)
    ||| canonical matches Some(resolved) && byte_parts(resolved) != byte_parts(path)
        && any_matches(patterns, resolved)
}

/// A pattern with the alternations of nothing written `{}`, as far as it was read: an
/// alternation of nothing holds braces and commas only, and matches nothing more than the empty
/// text however it is nested.
#[verifier::ext_equal]
pub struct Flattened {
    pub text: Seq<char>,
    /// Where in the text the alternations begin that are still open.
    pub opens: Seq<int>,
    /// The length of the text up to the last character that is no brace and no comma.
    pub solid: int,
}

/// Braces and commas can form alternations where they are neither escaped nor in a class.
pub open spec fn forms_alternation(reading: Reading, letter: char) -> bool {
    reading is Plain && (letter == '{' || letter == '}' || letter == ',')
}

/// The first `n` characters of a pattern, with the alternations of nothing written `{}`.
pub open spec fn flattened(pattern: Seq<char>, n: int) -> Flattened
    decreases n,
{
    if n <= 0 {
        Flattened { text: Seq::empty(), opens: Seq::empty(), solid: 0 }
    } else {
        let before = flattened(pattern, n - 1);
        let letter = pattern[n - 1];
        let longer = before.text.push(letter);
        if !forms_alternation(reading_at(pattern, n - 1), letter) {
            Flattened { text: longer, opens: before.opens, solid: longer.len() as int }
        } else if letter == '{' {
            Flattened {
                text: longer,
                opens: before.opens.push(before.text.len() as int),
                solid: before.solid,
            }
        } else if letter == '}' && before.opens.len() > 0 {
            let start = before.opens.last();
            Flattened {
                text: if before.solid <= start {
                    before.text.take(start).push('{').push('}')
                } else {
                    longer
                },
                opens: before.opens.drop_last(),
                solid: before.solid,
            }
        } else {
            Flattened { text: longer, opens: before.opens, solid: before.solid }
        }
    }
}

/// The characters among the first `n` of a pattern that cannot form alternations.
pub open spec fn solid_characters(pattern: Seq<char>, n: int) -> Seq<char>
    decreases n,
{
    if n <= 0 {
        Seq::empty()
    } else {
        let before = solid_characters(pattern, n - 1);
        if forms_alternation(reading_at(pattern, n - 1), pattern[n - 1]) {
            before
        } else {
            before.push(pattern[n - 1])
        }
    }
}

/// What is compiled for a pattern: the pattern itself, or where its alternations are nested too
/// deeply, the same with the alternations of nothing written `{}`.
pub open spec fn compiled_form(pattern: Seq<char>) -> Seq<char> {
    if few_braces(pattern) {
        pattern
    } else {
        flattened(pattern, pattern.len() as int).text
    }
}

/// What is compiled for each pattern.
pub open spec fn compiled_forms(patterns: Seq<Seq<char>>) -> Seq<Seq<char>> {
    patterns.map_values(|pattern: Seq<char>| compiled_form(pattern))
}

/// Every alternation is opened before it is closed, and none stays open.
pub open spec fn balanced(pattern: Seq<char>) -> bool {
    &&& forall|n: int|
        0 <= n < pattern.len() && reading_at(pattern, n) is Plain && pattern[n] == '}'
            ==> #[trigger] open_braces(pattern, n) > 0
    &&& open_braces(pattern, pattern.len() as int) == 0
}

/// The first `n` characters of a pattern, without the braces that form alternations.
pub open spec fn unbraced(pattern: Seq<char>, n: int) -> Seq<char>
    decreases n,
{
    if n <= 0 {
        Seq::empty()
    } else {
        let before = unbraced(pattern, n - 1);
        let letter = pattern[n - 1];
        if forms_alternation(reading_at(pattern, n - 1), letter) && letter != ',' {
            before
        } else {
            before.push(letter)
        }
    }
}

/// The pattern can be parsed. Where its alternations are nested too deeply, they have to match
/// up, and the rest of it has to be a pattern.
pub open spec fn well_formed(pattern: Seq<char>) -> bool {
    if few_braces(compiled_form(pattern)) {
        glob_parses(compiled_form(pattern))
    } else {
        balanced(pattern) && glob_parses(unbraced(pattern, pattern.len() as int))
    }
}

/// The first `n` patterns can be parsed.
pub open spec fn all_parse(patterns: Seq<Seq<char>>, n: int) -> bool {
    forall|i: int| 0 <= i < n ==> well_formed(#[trigger] patterns[i])
}

/// The first `n` patterns are nested so little that they can be compiled. Alternations of
/// something are groups of a regular expression, which are limited well below
/// [`MAX_BRACE_DEPTH`].
pub open spec fn all_shallow(patterns: Seq<Seq<char>>, n: int) -> bool {
    forall|i: int| 0 <= i < n ==> few_braces(compiled_form(#[trigger] patterns[i]))
}

/// Whether the alternations of a pattern are nested little enough.
pub fn has_few_braces(pattern: &String) -> (result: bool)
    ensures
        result == few_braces(pattern@),
{
    let letters = characters(pattern.as_str());
    let mut open: usize = 0;
    let mut reading = Reading::Plain;
    let mut i: usize = 0;
    while i < letters.len()
        invariant
            i <= letters@.len(),
            letters@ == pattern@,
            open == open_braces(pattern@, i as int),
            open <= MAX_BRACE_DEPTH,
            reading == reading_at(pattern@, i as int),
            forall|n: int| 0 <= n <= i ==> #[trigger] open_braces(pattern@, n) <= MAX_BRACE_DEPTH,
        decreases letters@.len() - i,
    {
        let letter = letters[i];
        if let Reading::Plain = reading {
            if letter == '{' {
                if open == MAX_BRACE_DEPTH {
                    assert(open_braces(pattern@, i + 1) == MAX_BRACE_DEPTH + 1);
                    return false;
                }
                open = open + 1;
            } else if letter == '}' && open > 0 {
                open = open - 1;
            }
        }
        reading = next_reading(reading, letter);
        i += 1;
    }
    true
}

fn next_reading(reading: Reading, letter: char) -> (next: Reading)
    ensures
        next == read_on(reading, letter),
{
    match reading {
        Reading::Plain => if letter == '\\' {
            Reading::Escape
        } else if letter == '[' {
            Reading::ClassOpened
        } else {
            Reading::Plain
        },
        Reading::Escape => Reading::Plain,
        Reading::ClassOpened => if letter == '!' || letter == '^' {
            Reading::ClassNegated
        } else {
            Reading::Class
        },
        Reading::ClassNegated => Reading::Class,
        Reading::Class => if letter == ']' {
            Reading::Plain
        } else {
            Reading::Class
        },
    }
}

fn joined(letters: &Vec<char>) -> (text: String)
    ensures
        text@ == letters@,
{
    let mut text = String::new();
    let mut i: usize = 0;
    while i < letters.len()
        invariant
            i <= letters@.len(),
            text@ == letters@.take(i as int),
        decreases letters@.len() - i,
    {
        text.push(letters[i]);
        assert(text@ =~= letters@.take(i + 1));
        i += 1;
    }
    assert(letters@.take(i as int) =~= letters@);
    text
}

/// Writes the alternations of nothing `{}`.
fn flatten(pattern: &String) -> (flat: String)
    ensures
        flat@ == flattened(pattern@, pattern@.len() as int).text,
{
    let letters = characters(pattern.as_str());
    let mut text: Vec<char> = Vec::new();
    let mut opens: Vec<usize> = Vec::new();
    let mut solid: usize = 0;
    let mut reading = Reading::Plain;
    let mut i: usize = 0;
    while i < letters.len()
        invariant
            i <= letters@.len(),
            letters@ == pattern@,
            reading == reading_at(pattern@, i as int),
            text@ == flattened(pattern@, i as int).text,
            opens@.map_values(|at: usize| at as int) == flattened(pattern@, i as int).opens,
            solid == flattened(pattern@, i as int).solid,
            forall|k: int| 0 <= k < opens@.len() ==> #[trigger] opens@[k] < text@.len(),
            forall|j: int, k: int|
                0 <= j < k < opens@.len() ==> #[trigger] opens@[j] < #[trigger] opens@[k],
        decreases letters@.len() - i,
    {
        let letter = letters[i];
        let ghost before = flattened(pattern@, i as int);
        let ghost after = flattened(pattern@, i + 1);
        let plain = match reading {
            Reading::Plain => true,
            _ => false,
        };
        if !plain || (letter != '{' && letter != '}' && letter != ',') {
            text.push(letter);
            solid = text.len();
        } else if letter == '{' {
            opens.push(text.len());
            text.push(letter);
            assert(opens@.map_values(|at: usize| at as int) =~= after.opens);
        } else if letter == '}' && opens.len() > 0 {
            let start = opens[opens.len() - 1];
            assert(before.opens.last() == start);
            opens.pop();
            assert(opens@.map_values(|at: usize| at as int) =~= after.opens);
            if solid <= start {
                text.truncate(start);
                text.push('{');
                text.push('}');
                assert(text@ =~= after.text);
            } else {
                text.push(letter);
            }
        } else {
            text.push(letter);
        }
        reading = next_reading(reading, letter);
        i += 1;
    }
    joined(&text)
}

/// Whether every alternation is opened before it is closed, and none stays open.
fn is_balanced(pattern: &String) -> (result: bool)
    ensures
        result == balanced(pattern@),
{
    let letters = characters(pattern.as_str());
    let mut open: usize = 0;
    let mut reading = Reading::Plain;
    let mut i: usize = 0;
    while i < letters.len()
        invariant
            i <= letters@.len(),
            letters@ == pattern@,
            open == open_braces(pattern@, i as int),
            open <= i,
            reading == reading_at(pattern@, i as int),
            forall|n: int|
                0 <= n < i && reading_at(pattern@, n) is Plain && pattern@[n] == '}'
                    ==> #[trigger] open_braces(pattern@, n) > 0,
        decreases letters@.len() - i,
    {
        let letter = letters[i];
        if let Reading::Plain = reading {
            if letter == '{' {
                open = open + 1;
            } else if letter == '}' {
                if open == 0 {
                    return false;
                }
                open = open - 1;
            }
        }
        reading = next_reading(reading, letter);
        i += 1;
    }
    open == 0
}

proof fn lemma_longer_pattern(pattern: Seq<char>, letter: char, n: int)
    requires
        n <= pattern.len(),
    ensures
        reading_at(pattern.push(letter), n) == reading_at(pattern, n),
        open_braces(pattern.push(letter), n) == open_braces(pattern, n),
    decreases n,
{
    if n > 0 {
        lemma_longer_pattern(pattern, letter, n - 1);
    }
}

proof fn lemma_unbraced_is_flat(pattern: Seq<char>, n: int)
    requires
        0 <= n <= pattern.len(),
    ensures
        ({
            let text = unbraced(pattern, n);
            &&& reading_at(text, text.len() as int) == reading_at(pattern, n)
            &&& forall|k: int| 0 <= k <= text.len() ==> #[trigger] open_braces(text, k) == 0
        }),
    decreases n,
{
    if n > 0 {
        lemma_unbraced_is_flat(pattern, n - 1);
        let before = unbraced(pattern, n - 1);
        let letter = pattern[n - 1];
        let text = unbraced(pattern, n);
        if text != before {
            lemma_longer_pattern(before, letter, before.len() as int);
            assert forall|k: int| 0 <= k <= text.len() implies #[trigger] open_braces(text, k)
                == 0 by {
                if k <= before.len() {
                    lemma_longer_pattern(before, letter, k);
                }
            }
        }
    }
}

/// The pattern without the braces that form alternations.
fn without_braces(pattern: &String) -> (text: String)
    ensures
        text@ == unbraced(pattern@, pattern@.len() as int),
        few_braces(text@),
{
    let letters = characters(pattern.as_str());
    let mut text = String::new();
    let mut reading = Reading::Plain;
    let mut i: usize = 0;
    while i < letters.len()
        invariant
            i <= letters@.len(),
            letters@ == pattern@,
            reading == reading_at(pattern@, i as int),
            text@ == unbraced(pattern@, i as int),
        decreases letters@.len() - i,
    {
        let letter = letters[i];
        let plain = match reading {
            Reading::Plain => true,
            _ => false,
        };
        if !plain || (letter != '{' && letter != '}') {
            text.push(letter);
        }
        reading = next_reading(reading, letter);
        i += 1;
    }
    proof {
        lemma_unbraced_is_flat(pattern@, pattern@.len() as int);
    }
    text
}

impl PathExcluder {
    /// The patterns by which paths are excluded.
    pub closed spec fn patterns(&self) -> Seq<Seq<char>> {
        match self.set {
            Some(set) => set_patterns(set),
            None => Seq::empty(),
        }
    }

    /// Whether there is any pattern to match.
    pub closed spec fn active(&self) -> bool {
        self.set is Some
    }

    /// Compiles the patterns.
    pub fn build(patterns: &Vec<String>) -> (excluder: Result<PathExcluder, ExcludeError>)
        ensures
            ({
                let wanted = patterns.deep_view();
                let n = wanted.len() as int;
                match excluder {
                    Ok(excluder) => {
                        &&& excluder.patterns() == compiled_forms(wanted)
                        &&& excluder.active() == (n > 0)
                        &&& all_parse(wanted, n)
                        &&& all_shallow(wanted, n)
                        &&& n > 0 ==> set_compiles(compiled_forms(wanted))
                    },
                    Err(ExcludeError::InvalidPattern(pattern)) => exists|i: int|
                        0 <= i < n && #[trigger] wanted[i] == pattern@ && !well_formed(wanted[i])
                            && all_parse(wanted, i),
                    Err(ExcludeError::NotCompiled) => {
                        &&& n > 0
                        &&& all_parse(wanted, n)
                        &&& all_shallow(wanted, n) ==> !set_compiles(compiled_forms(wanted))
                    },
                }
            }),
    {
        let ghost wanted = patterns.deep_view();
        let ghost forms = compiled_forms(wanted);
        if patterns.len() == 0 {
            assert(forms =~= Seq::empty());
            return Ok(PathExcluder { set: None });
        }
        let mut builder = new_glob_set();
        let mut shallow = true;
        let mut i: usize = 0;
        assert(builder_patterns(builder) =~= forms.take(0));
        while i < patterns.len()
            invariant
                i <= patterns@.len(),
                wanted == patterns.deep_view(),
                forms == compiled_forms(wanted),
                shallow ==> builder_patterns(builder) == forms.take(i as int),
                shallow == all_shallow(wanted, i as int),
                all_parse(wanted, i as int),
            decreases patterns@.len() - i,
        {
            let pattern = &patterns[i];
            assert(wanted[i as int] == pattern@);
            assert(forms[i as int] == compiled_form(pattern@));
            let form = if has_few_braces(pattern) {
                pattern.duplicate()
            } else {
                flatten(pattern)
            };
            if has_few_braces(&form) {
                match parse_glob(form.as_str()) {
                    Ok(glob) => {
                        add_glob(&mut builder, glob);
                        assert(shallow ==> builder_patterns(builder) =~= forms.take(i + 1));
                    },
                    Err(_) => {
                        return Err(ExcludeError::InvalidPattern(pattern.duplicate()));
                    },
                }
            } else {
                if !is_balanced(pattern) || parse_glob(without_braces(pattern).as_str()).is_err() {
                    return Err(ExcludeError::InvalidPattern(pattern.duplicate()));
                }
                shallow = false;
            }
            i += 1;
        }
        assert(forms.take(i as int) =~= forms);
        if !shallow {
            return Err(ExcludeError::NotCompiled);
        }
        match compile_globs(&builder) {
            Ok(set) => Ok(PathExcluder { set: Some(set) }),
            Err(_) => Err(ExcludeError::NotCompiled),
        }
    }

    /// Whether there is any pattern to match.
    pub fn is_active(&self) -> (result: bool)
        ensures
            result == self.active(),
    {
        self.set.is_some()
    }

    /// Whether a path is excluded, given its canonical form if it has one.
    pub fn is_excluded(&self, path: &FilePath, canonical: Option<&FilePath>) -> (result: bool)
        ensures
            result == excluded_by(
                self.patterns(),
                path.spelling(),
                match canonical {
                    Some(resolved) => Some(resolved.spelling()),
                    None => None,
                },
            ),
    {
        match &self.set {
            None => false,
            Some(set) => {
                if any_glob_matches(set, path.bytes().as_slice()) {
                    return true;
                }
                match canonical {
                    Some(resolved) => !resolved.same(path) && any_glob_matches(
                        set,
                        resolved.bytes().as_slice(),
                    ),
                    None => false,
                }
            },
        }
    }
}

proof fn lemma_shorter_pattern(pattern: Seq<char>, m: int, n: int)
    requires
        0 <= m <= pattern.len(),
        n <= m,
    ensures
        reading_at(pattern.take(m), n) == reading_at(pattern, n),
        solid_characters(pattern.take(m), n) == solid_characters(pattern, n),
    decreases n,
{
    if n > 0 {
        lemma_shorter_pattern(pattern, m, n - 1);
    }
}

proof fn lemma_one_more(pattern: Seq<char>, letter: char)
    ensures
        ({
            let longer = pattern.push(letter);
            let n = pattern.len() as int;
            let reading = reading_at(pattern, n);
            let solids = solid_characters(pattern, n);
            &&& forall|k: int| k <= n ==> #[trigger] reading_at(longer, k) == reading_at(pattern, k)
            &&& reading_at(longer, n + 1) == read_on(reading, letter)
            &&& solid_characters(longer, n + 1) == if forms_alternation(reading, letter) {
                solids
            } else {
                solids.push(letter)
            }
        }),
{
    let longer = pattern.push(letter);
    let n = pattern.len() as int;
    assert(longer.take(n) =~= pattern);
    assert forall|k: int| k <= n implies #[trigger] reading_at(longer, k) == reading_at(
        pattern,
        k,
    ) by {
        lemma_shorter_pattern(longer, n, k);
    }
    lemma_shorter_pattern(longer, n, n);
}

/// From `from` on, the text holds nothing but what forms alternations.
spec fn hollow_from(text: Seq<char>, from: int) -> bool {
    forall|k: int|
        from <= k < text.len() ==> forms_alternation(#[trigger] reading_at(text, k), text[k])
}

proof fn lemma_hollow_adds_nothing(text: Seq<char>, from: int, n: int)
    requires
        0 <= from <= n <= text.len(),
        hollow_from(text, from),
    ensures
        solid_characters(text, n) == solid_characters(text, from),
    decreases n,
{
    if from < n {
        lemma_hollow_adds_nothing(text, from, n - 1);
        assert(forms_alternation(reading_at(text, n - 1), text[n - 1]));
    }
}

proof fn lemma_flattened(pattern: Seq<char>, n: int)
    requires
        0 <= n <= pattern.len(),
    ensures
        ({
            let flat = flattened(pattern, n);
            let len = flat.text.len() as int;
            &&& reading_at(flat.text, len) == reading_at(pattern, n)
            &&& solid_characters(flat.text, len) == solid_characters(pattern, n)
            &&& 0 <= flat.solid <= len
            &&& hollow_from(flat.text, flat.solid)
            &&& forall|k: int| 0 <= k < flat.opens.len() ==> 0 <= #[trigger] flat.opens[k] < len
            &&& forall|j: int, k: int|
                0 <= j < k < flat.opens.len() ==> #[trigger] flat.opens[j] < #[trigger] flat.opens[k]
        }),
    decreases n,
{
    if n > 0 {
        lemma_flattened(pattern, n - 1);
        let before = flattened(pattern, n - 1);
        let after = flattened(pattern, n);
        let letter = pattern[n - 1];
        let len = before.text.len() as int;
        lemma_one_more(before.text, letter);
        if after.text != before.text.push(letter) {
            let start = before.opens.last();
            let kept = before.text.take(start);
            assert(0 <= start < len);
            assert(forms_alternation(reading_at(before.text, start), before.text[start]));
            lemma_hollow_adds_nothing(before.text, start, len);
            lemma_shorter_pattern(before.text, start, start);
            lemma_one_more(kept, '{');
            lemma_one_more(kept.push('{'), '}');
            assert forall|k: int| after.solid <= k < after.text.len() implies forms_alternation(
                #[trigger] reading_at(after.text, k),
                after.text[k],
            ) by {
                if k < start {
                    lemma_shorter_pattern(before.text, start, k);
                    assert(reading_at(kept.push('{'), k) == reading_at(kept, k));
                    assert(forms_alternation(reading_at(before.text, k), before.text[k]));
                }
            }
        } else {
            assert forall|k: int| after.solid <= k < after.text.len() implies forms_alternation(
                #[trigger] reading_at(after.text, k),
                after.text[k],
            ) by {
                if k < len {
                    assert(forms_alternation(reading_at(before.text, k), before.text[k]));
                }
            }
        }
    }
}

/// What is compiled for a pattern keeps, in order, every character that is no brace and no comma,
/// and every one that is escaped or in a class.
pub proof fn law_compiled_forms_keep_solid_characters(pattern: Seq<char>)
    ensures
        ({
            let form = compiled_form(pattern);
            solid_characters(form, form.len() as int) == solid_characters(
                pattern,
                pattern.len() as int,
            )
        }),
{
    lemma_flattened(pattern, pattern.len() as int);
}

/// Without patterns nothing is excluded, and further patterns exclude no less.
pub proof fn law_more_patterns_exclude_no_less(
    patterns: Seq<Seq<char>>,
    more: Seq<Seq<char>>,
    path: Seq<u8>,
    canonical: Option<Seq<u8>>,
)
    ensures
        !excluded_by(Seq::empty(), path, canonical),
        excluded_by(patterns, path, canonical) ==> excluded_by(patterns + more, path, canonical),
{
    assert forall|p: Seq<u8>| any_matches(patterns, p) implies any_matches(patterns + more, p) by {
        let i = choose|i: int|
            0 <= i && i < patterns.len() && glob_matches(#[trigger] patterns[i], p);
        assert((patterns + more)[i] == patterns[i]);
    }
}

/// A path is excluded exactly if some pattern matches it, or matches what it stands for where
/// that is another path.
pub proof fn law_matched_paths_are_excluded(
    patterns: Seq<Seq<char>>,
    path: Seq<u8>,
    canonical: Option<Seq<u8>>,
    i: int,
)
    ensures
        0 <= i < patterns.len() && glob_matches(patterns[i], path) ==> excluded_by(
            patterns,
            path,
            canonical,
        ),
        0 <= i < patterns.len() && canonical is Some && byte_parts(canonical.unwrap())
            != byte_parts(path) && glob_matches(patterns[i], canonical.unwrap()) ==> excluded_by(
            patterns,
            path,
            canonical,
        ),
        (forall|k: int|
            #![trigger patterns[k]]
            0 <= k < patterns.len() ==> !glob_matches(patterns[k], path) && !(canonical is Some
                && byte_parts(canonical.unwrap()) != byte_parts(path) && glob_matches(
                patterns[k],
                canonical.unwrap(),
            ))) ==> !excluded_by(patterns, path, canonical),
{
}

proof fn lemma_few_open(pattern: Seq<char>, n: int)
    requires
        0 <= n <= pattern.len(),
    ensures
        open_braces(pattern, n) <= n,
    decreases n,
{
    if n > 0 {
        lemma_few_open(pattern, n - 1);
    }
}

/// A pattern whose alternations are not nested deeply is compiled as it is, among them every
/// pattern of at most five hundred characters, and can be parsed exactly if it is a glob.
pub proof fn law_ordinary_patterns_are_compiled_as_they_are(
    patterns: Seq<Seq<char>>,
    pattern: Seq<char>,
    i: int,
)
    ensures
        pattern.len() <= 500 ==> few_braces(pattern),
        few_braces(pattern) ==> compiled_form(pattern) == pattern && (well_formed(pattern)
            <==> glob_parses(pattern)),
        compiled_forms(patterns).len() == patterns.len(),
        0 <= i < patterns.len() ==> compiled_forms(patterns)[i] == compiled_form(patterns[i]),
        0 <= i < patterns.len() && all_parse(patterns, patterns.len() as int) ==> well_formed(
            patterns[i],
        ),
        0 <= i < patterns.len() && all_shallow(patterns, patterns.len() as int) ==> few_braces(
            compiled_form(patterns[i]),
        ),
{
    if pattern.len() <= 500 {
        assert forall|n: int| 0 <= n <= pattern.len() implies #[trigger] open_braces(pattern, n)
            <= MAX_BRACE_DEPTH by {
            lemma_few_open(pattern, n);
        }
    }
}

/// A pattern that is too deep to be parsed is well formed only if its braces match up: there are
/// as many that close as that open. Without the braces it stays the same pattern otherwise.
pub proof fn law_deep_patterns_have_to_match_up(pattern: Seq<char>)
    ensures
        well_formed(pattern) && !few_braces(compiled_form(pattern)) ==> open_braces(
            pattern,
            pattern.len() as int,
        ) == 0 && glob_parses(unbraced(pattern, pattern.len() as int)),
        unbraced(pattern, pattern.len() as int).filter(|c: char| c != '{' && c != '}')
            == pattern.filter(|c: char| c != '{' && c != '}'),
{
    lemma_unbraced_keeps_the_rest(pattern, pattern.len() as int);
    assert(pattern.take(pattern.len() as int) =~= pattern);
}

proof fn lemma_unbraced_keeps_the_rest(pattern: Seq<char>, n: int)
    requires
        0 <= n <= pattern.len(),
    ensures
        unbraced(pattern, n).filter(|c: char| c != '{' && c != '}') == pattern.take(n).filter(
            |c: char| c != '{' && c != '}',
        ),
    decreases n,
{
    reveal(Seq::filter);
    if n > 0 {
        lemma_unbraced_keeps_the_rest(pattern, n - 1);
        let letter = pattern[n - 1];
        assert(pattern.take(n).drop_last() =~= pattern.take(n - 1));
        assert(pattern.take(n).last() == letter);
        let before = unbraced(pattern, n - 1);
        assert(before.push(letter).drop_last() =~= before);
    } else {
        assert(pattern.take(0) =~= Seq::empty());
    }
}

/// Alternations of nothing, one inside the other.
pub open spec fn nested(depth: nat) -> Seq<char> {
    Seq::new(
        2 * depth,
        |i: int|
            if i < depth {
                '{'
            } else {
                '}'
            },
    )
}

proof fn lemma_same_beginning(pattern: Seq<char>, more: Seq<char>, n: int)
    requires
        n <= pattern.len(),
    ensures
        flattened(pattern + more, n) == flattened(pattern, n),
        reading_at(pattern + more, n) == reading_at(pattern, n),
    decreases n,
{
    if n > 0 {
        lemma_same_beginning(pattern, more, n - 1);
    }
}

proof fn lemma_opened(pattern: Seq<char>, depth: nat, k: int)
    requires
        0 <= k <= depth,
        reading_at(pattern, pattern.len() as int) is Plain,
    ensures
        ({
            let n = pattern.len() as int;
            let before = flattened(pattern, n);
            let after = flattened(pattern + nested(depth), n + k);
            let start = before.text.len() as int;
            &&& reading_at(pattern + nested(depth), n + k) is Plain
            &&& after.text == before.text + Seq::new(k as nat, |i: int| '{')
            &&& after.opens == before.opens + Seq::new(k as nat, |i: int| start + i)
            &&& after.solid == before.solid
        }),
    decreases k,
{
    let n = pattern.len() as int;
    let before = flattened(pattern, n);
    let after = flattened(pattern + nested(depth), n + k);
    let start = before.text.len() as int;
    if k == 0 {
        lemma_same_beginning(pattern, nested(depth), n);
    } else {
        lemma_opened(pattern, depth, k - 1);
        assert((pattern + nested(depth))[n + k - 1] == '{');
    }
    assert(after.text =~= before.text + Seq::new(k as nat, |i: int| '{'));
    assert(after.opens =~= before.opens + Seq::new(k as nat, |i: int| start + i));
}

proof fn lemma_closed(pattern: Seq<char>, depth: nat, k: int)
    requires
        0 < k <= depth,
        reading_at(pattern, pattern.len() as int) is Plain,
    ensures
        ({
            let n = pattern.len() as int;
            let before = flattened(pattern, n);
            let after = flattened(pattern + nested(depth), n + depth + k);
            let start = before.text.len() as int;
            &&& reading_at(pattern + nested(depth), n + depth + k) is Plain
            &&& after.text == before.text + Seq::new((depth - k) as nat, |i: int| '{') + seq![
                '{',
                '}',
            ]
            &&& after.opens == before.opens + Seq::new((depth - k) as nat, |i: int| start + i)
            &&& after.solid == before.solid
        }),
    decreases k,
{
    let n = pattern.len() as int;
    let before = flattened(pattern, n);
    let whole = pattern + nested(depth);
    let last = flattened(whole, n + depth + k - 1);
    let after = flattened(whole, n + depth + k);
    let start = before.text.len() as int;
    lemma_flattened(pattern, n);
    if k == 1 {
        lemma_opened(pattern, depth, depth as int);
    } else {
        lemma_closed(pattern, depth, k - 1);
    }
    assert(whole[n + depth + k - 1] == '}');
    assert(last.opens.last() == start + depth - k);
    assert(after.text =~= before.text + Seq::new((depth - k) as nat, |i: int| '{') + seq![
        '{',
        '}',
    ]);
    assert(after.opens =~= before.opens + Seq::new((depth - k) as nat, |i: int| start + i));
}

/// However deeply alternations of nothing are nested, they are written as a single one. So a
/// pattern that ends in them is as good as one that ends in `{}`.
pub proof fn law_nested_nothing_is_written_once(pattern: Seq<char>, depth: nat)
    requires
        reading_at(pattern, pattern.len() as int) is Plain,
        depth > 0,
    ensures
        ({
            let whole = pattern + nested(depth);
            flattened(whole, whole.len() as int).text == flattened(
                pattern,
                pattern.len() as int,
            ).text + seq!['{', '}']
        }),
{
    lemma_closed(pattern, depth, depth as int);
    let text = flattened(pattern, pattern.len() as int).text;
    assert(text + Seq::new(0, |i: int| '{') + seq!['{', '}'] =~= text + seq!['{', '}']);
}

proof fn lemma_nothing_is_open(pattern: Seq<char>, n: int)
    requires
        0 <= n <= pattern.len(),
        !pattern.contains('{'),
    ensures
        open_braces(pattern, n) == 0,
    decreases n,
{
    if n > 0 {
        lemma_nothing_is_open(pattern, n - 1);
        assert(pattern[n - 1] != '{') by {
            if pattern[n - 1] == '{' {
                assert(pattern.contains('{'));
            }
        }
    }
}

/// A pattern without braces is balanced. A balanced pattern stays so with any letter behind it
/// that is no brace, and is so no longer where a brace closes what is not open or stays open.
pub proof fn law_balanced_patterns(pattern: Seq<char>, letter: char, n: int)
    ensures
        !pattern.contains('{') && !pattern.contains('}') ==> balanced(pattern),
        0 <= n < pattern.len() && reading_at(pattern, n) is Plain && pattern[n] == '}'
            && open_braces(pattern, n) == 0 ==> !balanced(pattern),
        open_braces(pattern, pattern.len() as int) > 0 ==> !balanced(pattern),
        letter != '{' && letter != '}' ==> balanced(pattern.push(letter)) == balanced(pattern),
{
    let len = pattern.len() as int;
    if !pattern.contains('{') && !pattern.contains('}') {
        lemma_nothing_is_open(pattern, len);
        assert forall|k: int| 0 <= k < len implies pattern[k] != '}' by {
            if pattern[k] == '}' {
                assert(pattern.contains('}'));
            }
        }
    }
    if letter != '{' && letter != '}' {
        let longer = pattern.push(letter);
        lemma_longer_pattern(pattern, letter, len);
        assert(longer[len] == letter);
        assert(open_braces(longer, len + 1) == open_braces(pattern, len));
        if balanced(longer) {
            assert forall|k: int|
                0 <= k < len && reading_at(pattern, k) is Plain && pattern[k] == '}' implies
                #[trigger] open_braces(pattern, k) > 0 by {
                lemma_longer_pattern(pattern, letter, k);
                assert(longer[k] == pattern[k]);
                assert(open_braces(longer, k) > 0);
            }
        }
        if balanced(pattern) {
            assert forall|k: int|
                0 <= k < len + 1 && reading_at(longer, k) is Plain && longer[k] == '}' implies
                #[trigger] open_braces(longer, k) > 0 by {
                lemma_longer_pattern(pattern, letter, k);
                assert(k < len && longer[k] == pattern[k]);
                assert(open_braces(pattern, k) > 0);
            }
        }
    }
}

} // verus!
