//! Deciding which programming language a source file is written in.

use vstd::prelude::*;
use vstd::utf8::{decode_utf8, valid_utf8};
use crate::text::{ascii_lowercase_equals, ascii_lowercase_is, chars_of, contains_chars, contains_run};
use linguist::LinguistError;
use linguist_types::LanguageType;

verus! {

/// The kind of a language, as the language definitions classify it.
#[derive(Clone, Copy, Debug, PartialEq, Eq, Structural)]
pub enum LanguageKind {
    Data,
    Programming,
    Markup,
    Prose,
}

/// A language that a detection step proposes for a file.
#[derive(Debug)]
pub struct Candidate {
    /// The language's own name, such as `Rust` or `TSX`.
    pub name: String,
    /// The language it is grouped under for statistics, if any.
    pub group: Option<String>,
    /// The language's kind.
    pub kind: LanguageKind,
}

/// The plain value of a candidate: its name, its group and its kind.
pub type CandidateModel = (Seq<char>, Option<Seq<char>>, LanguageKind);

impl View for Candidate {
    type V = CandidateModel;

    open spec fn view(&self) -> CandidateModel {
        (
            self.name@,
            match self.group {
                Some(g) => Some(g@),
                None => None,
            },
            self.kind,
        )
    }
}

/// An error that a lookup of the language detector reports.
#[derive(Debug)]
pub enum LookupError {
    /// The path has no usable file name; the text describes it.
    InvalidPath(String),
    /// A heuristic's regular expression failed on the contents.
    InvalidRegex { pattern: String, error: String },
    /// A heuristic names a pattern that the definitions lack.
    MissingNamedPattern(String),
}

/// The plain value of a lookup error.
pub enum LookupErrorModel {
    InvalidPath(Seq<char>),
    InvalidRegex(Seq<char>, Seq<char>),
    MissingNamedPattern(Seq<char>),
}

impl View for LookupError {
    type V = LookupErrorModel;

    open spec fn view(&self) -> LookupErrorModel {
        match self {
            LookupError::InvalidPath(p) => LookupErrorModel::InvalidPath(p@),
            LookupError::InvalidRegex { pattern, error } => LookupErrorModel::InvalidRegex(pattern@, error@),
            LookupError::MissingNamedPattern(n) => LookupErrorModel::MissingNamedPattern(n@),
        }
    }
}

/// The message of a lookup error, as the detector words it.
pub open spec fn lookup_error_text(error: LookupErrorModel) -> Seq<char> {
    match error {
        LookupErrorModel::InvalidPath(p) => "Invalid path: "@ + p,
        LookupErrorModel::InvalidRegex(pattern, error) => "Invalid regex pattern '"@ + pattern + "': "@ + error,
        LookupErrorModel::MissingNamedPattern(n) => "Named pattern '"@ + n + "' not found in heuristics"@,
    }
}

/// The message of a lookup error (see `lookup_error_text`).
pub fn lookup_error_message(error: &LookupError) -> (message: String)
    ensures
        message@ == lookup_error_text(error@),
{
    match error {
        LookupError::InvalidPath(p) => String::from_str("Invalid path: ").concat(p.as_str()),
        LookupError::InvalidRegex { pattern, error } => String::from_str("Invalid regex pattern '").concat(
            pattern.as_str(),
        ).concat("': ").concat(error.as_str()),
        LookupError::MissingNamedPattern(n) => String::from_str("Named pattern '").concat(n.as_str()).concat(
            "' not found in heuristics",
        ),
    }
}

/// No two candidates in `list` have the same name.
pub open spec fn names_distinct(list: Seq<CandidateModel>) -> bool {
    forall|i: int, j: int| 0 <= i < j < list.len() ==> (#[trigger] list[i]).0 != (#[trigger] list[j]).0
}

/// The plain values of a list of candidates.
pub open spec fn models(candidates: Seq<Candidate>) -> Seq<CandidateModel> {
    candidates.map_values(|c: Candidate| c@)
}

/// The name under which a candidate is reported: its group when it has one,
/// else its own name.
pub open spec fn display_name(c: CandidateModel) -> Seq<char> {
    match c.1 {
        Some(group) => group,
        None => c.0,
    }
}

/// The candidate is a programming language.
pub open spec fn is_programming(c: CandidateModel) -> bool {
    c.2 == LanguageKind::Programming
}

/// Some candidate in `list` has the name `name`.
pub open spec fn has_name(list: Seq<CandidateModel>, name: Seq<char>) -> bool {
    exists|i: int| 0 <= i < list.len() && (#[trigger] list[i]).0 == name
}

/// Some candidate in `list` is reported under `name`.
pub open spec fn has_display_name(list: Seq<CandidateModel>, name: Seq<char>) -> bool {
    exists|i: int| 0 <= i < list.len() && display_name(#[trigger] list[i]) == name
}

/// `list` with every candidate dropped whose reported name an earlier one
/// already has.
pub open spec fn normalized(list: Seq<CandidateModel>) -> Seq<CandidateModel>
    decreases list.len(),
{
    if list.len() == 0 {
        Seq::empty()
    } else {
        let kept = normalized(list.drop_last());
        if has_display_name(kept, display_name(list.last())) {
            kept
        } else {
            kept.push(list.last())
        }
    }
}

/// `base` followed by the candidates of `extra` whose own name is not yet
/// among those collected so far.
pub open spec fn appended(base: Seq<CandidateModel>, extra: Seq<CandidateModel>) -> Seq<CandidateModel>
    decreases extra.len(),
{
    if extra.len() == 0 {
        base
    } else {
        let so_far = appended(base, extra.drop_last());
        if has_name(so_far, extra.last().0) {
            so_far
        } else {
            so_far.push(extra.last())
        }
    }
}

/// The programming languages of `list`, in order.
pub open spec fn programming_only(list: Seq<CandidateModel>) -> Seq<CandidateModel>
    decreases list.len(),
{
    if list.len() == 0 {
        Seq::empty()
    } else {
        let kept = programming_only(list.drop_last());
        if is_programming(list.last()) {
            kept.push(list.last())
        } else {
            kept
        }
    }
}

/// Normalizing keeps one candidate per reported name: the kept candidates
/// have pairwise distinct reported names, each is one of the given
/// candidates, and every given reported name is still present.
pub proof fn lemma_normalized_one_per_name(list: Seq<CandidateModel>)
    ensures
        forall|i: int, j: int|
            0 <= i < j < normalized(list).len() ==> display_name(#[trigger] normalized(list)[i])
                != display_name(#[trigger] normalized(list)[j]),
        forall|i: int| 0 <= i < normalized(list).len() ==> list.contains(#[trigger] normalized(list)[i]),
        forall|i: int| 0 <= i < list.len() ==> has_display_name(normalized(list), display_name(#[trigger] list[i])),
    decreases list.len(),
{
    if list.len() > 0 {
        let rest = list.drop_last();
        let last = list.last();
        lemma_normalized_one_per_name(rest);
        let kept = normalized(rest);
        let all = normalized(list);
        assert forall|i: int| 0 <= i < all.len() implies list.contains(#[trigger] all[i]) by {
            if i < kept.len() {
                assert(all[i] == kept[i]);
                assert(rest.contains(kept[i]));
                let k: int = choose|k: int| 0 <= k < rest.len() && rest[k] == kept[i];
                assert(list[k] == kept[i]);
            } else {
                assert(all[i] == list[list.len() - 1]);
            }
        }
        assert forall|i: int| 0 <= i < list.len() implies has_display_name(all, display_name(#[trigger] list[i])) by {
            if i < rest.len() {
                assert(list[i] == rest[i]);
                assert(has_display_name(kept, display_name(rest[i])));
                let k: int = choose|k: int| 0 <= k < kept.len() && display_name(#[trigger] kept[k]) == display_name(rest[i]);
                assert(all[k] == kept[k]);
            } else if has_display_name(kept, display_name(last)) {
            } else {
                assert(all[kept.len() as int] == last);
            }
        }
        assert forall|i: int, j: int| 0 <= i < j < all.len() implies display_name(#[trigger] all[i])
            != display_name(#[trigger] all[j]) by {
            if j < kept.len() {
                assert(all[i] == kept[i] && all[j] == kept[j]);
            } else {
                assert(all[i] == kept[i]);
                assert(all[j] == last);
            }
        }
    }
}

/// A copy of a candidate.
pub fn copy_candidate(c: &Candidate) -> (copy: Candidate)
    ensures
        copy@ == c@,
{
    let group = match &c.group {
        Some(g) => Some(g.clone()),
        None => None,
    };
    Candidate { name: c.name.clone(), group, kind: c.kind }
}

/// The name under which `c` is reported: its group, else its own name.
pub fn reported_name(c: &Candidate) -> (name: String)
    ensures
        name@ == display_name(c@),
{
    match &c.group {
        Some(g) => g.clone(),
        None => c.name.clone(),
    }
}

/// Whether some candidate in `list` is reported under `name`.
fn contains_display_name(list: &Vec<Candidate>, name: &String) -> (found: bool)
    ensures
        found == has_display_name(models(list@), name@),
{
    let mut i: usize = 0;
    while i < list.len()
        invariant
            i <= list@.len(),
            forall|k: int| 0 <= k < i ==> display_name(#[trigger] models(list@)[k]) != name@,
        decreases list@.len() - i,
    {
        let shown = reported_name(&list[i]);
        if shown == *name {
            assert(display_name(models(list@)[i as int]) == name@);
            return true;
        }
        i = i + 1;
    }
    false
}

/// Whether some candidate in `list` has the name `name`.
fn contains_name(list: &Vec<Candidate>, name: &String) -> (found: bool)
    ensures
        found == has_name(models(list@), name@),
{
    let mut i: usize = 0;
    while i < list.len()
        invariant
            i <= list@.len(),
            forall|k: int| 0 <= k < i ==> (#[trigger] models(list@)[k]).0 != name@,
        decreases list@.len() - i,
    {
        if list[i].name == *name {
            assert(models(list@)[i as int].0 == name@);
            return true;
        }
        i = i + 1;
    }
    false
}

/// Drops every candidate whose reported name (group, else name) an earlier
/// candidate already has; the order of the rest is kept.
pub fn normalize_candidates(candidates: &Vec<Candidate>) -> (kept: Vec<Candidate>)
    ensures
        models(kept@) == normalized(models(candidates@)),
{
    let mut kept: Vec<Candidate> = Vec::new();
    let mut i: usize = 0;
    while i < candidates.len()
        invariant
            i <= candidates@.len(),
            models(kept@) == normalized(models(candidates@).take(i as int)),
        decreases candidates@.len() - i,
    {
        assert(models(candidates@).take(i + 1).drop_last() =~= models(candidates@).take(i as int));
        assert(models(candidates@).take(i + 1).last() == candidates@[i as int]@);
        let name = reported_name(&candidates[i]);
        if !contains_display_name(&kept, &name) {
            kept.push(copy_candidate(&candidates[i]));
            assert(models(kept@) =~= normalized(models(candidates@).take(i + 1)));
        }
        i = i + 1;
    }
    assert(models(candidates@).take(candidates@.len() as int) =~= models(candidates@));
    kept
}

/// Keeps the programming languages of `candidates`, in order.
pub fn filter_programming_languages(candidates: &Vec<Candidate>) -> (kept: Vec<Candidate>)
    ensures
        models(kept@) == programming_only(models(candidates@)),
{
    let mut kept: Vec<Candidate> = Vec::new();
    let mut i: usize = 0;
    while i < candidates.len()
        invariant
            i <= candidates@.len(),
            models(kept@) == programming_only(models(candidates@).take(i as int)),
        decreases candidates@.len() - i,
    {
        assert(models(candidates@).take(i + 1).drop_last() =~= models(candidates@).take(i as int));
        assert(models(candidates@).take(i + 1).last() == candidates@[i as int]@);
        if let LanguageKind::Programming = candidates[i].kind {
            kept.push(copy_candidate(&candidates[i]));
            assert(models(kept@) =~= programming_only(models(candidates@).take(i + 1)));
        }
        i = i + 1;
    }
    assert(models(candidates@).take(candidates@.len() as int) =~= models(candidates@));
    kept
}

/// Merges the candidates found by file name with those found by extension:
/// each list is normalized, and a candidate from the extension list is
/// appended unless one of the same name is already present.
pub fn merge_candidates(by_filename: &Vec<Candidate>, by_extension: &Vec<Candidate>) -> (merged: Vec<Candidate>)
    ensures
        models(merged@) == appended(normalized(models(by_filename@)), normalized(models(by_extension@))),
{
    let mut merged = normalize_candidates(by_filename);
    let extra = normalize_candidates(by_extension);
    let ghost base = models(merged@);
    let mut i: usize = 0;
    while i < extra.len()
        invariant
            i <= extra@.len(),
            models(merged@) == appended(base, models(extra@).take(i as int)),
        decreases extra@.len() - i,
    {
        assert(models(extra@).take(i + 1).drop_last() =~= models(extra@).take(i as int));
        assert(models(extra@).take(i + 1).last() == extra@[i as int]@);
        if !contains_name(&merged, &extra[i].name) {
            merged.push(copy_candidate(&extra[i]));
            assert(models(merged@) =~= appended(base, models(extra@).take(i + 1)));
        }
        i = i + 1;
    }
    assert(models(extra@).take(extra@.len() as int) =~= models(extra@));
    merged
}

/// What `linguist::detect_language_by_filename` finds for `path`: the
/// languages that list the path's file name among their exact file names, or
/// the error it reports.
pub uninterp spec fn languages_by_filename(path: Seq<char>) -> Result<Seq<CandidateModel>, LookupErrorModel>;

/// What `linguist::detect_language_by_extension` finds for `path`: the
/// languages of the path's most specific known extension, or the error it
/// reports.
pub uninterp spec fn languages_by_extension(path: Seq<char>) -> Result<Seq<CandidateModel>, LookupErrorModel>;

/// What `linguist::disambiguate` finds for `path` with `contents`: the
/// languages named by the first heuristic rule that matches, or the error it
/// reports.
pub uninterp spec fn languages_by_heuristics(path: Seq<char>, contents: Seq<char>) -> Result<
    Seq<CandidateModel>,
    LookupErrorModel,
>;

/// The extension that `std::path::Path::extension` reads from `path`, or
/// `None` where it finds none (or where it is not UTF-8).
pub uninterp spec fn path_extension(path: Seq<char>) -> Option<Seq<char>>;

/// The characters that `String::from_utf8_lossy` decodes from `bytes`.
pub uninterp spec fn lossy_decoding(bytes: Seq<u8>) -> Seq<char>;

/// Calls `linguist::detect_language_by_filename` on `path` and converts each
/// language it returns to a `Candidate` (its name, its definition's group and
/// its definition's kind), or its error to a `LookupError` variant by variant.
/// Trusted: the result is exactly `languages_by_filename(path@)`, and (as the
/// names come from an ordered set) no name occurs twice in it.
#[verifier::external_body]
fn detect_by_filename(path: &str) -> (found: Result<Vec<Candidate>, LookupError>)
    ensures
        match found {
            Ok(list) => {
                &&& languages_by_filename(path@) == Ok::<Seq<CandidateModel>, LookupErrorModel>(models(list@))
                &&& names_distinct(models(list@))
            },
            Err(e) => languages_by_filename(path@) == Err::<Seq<CandidateModel>, LookupErrorModel>(e@),
        },
{
    match linguist::detect_language_by_filename(path) {
        Ok(found) => Ok(found.iter().map(|l| Candidate {
            name: l.name.to_string(),
            group: l.definition.group.clone(),
            kind: match l.definition.language_type {
                LanguageType::Data => LanguageKind::Data,
                LanguageType::Programming => LanguageKind::Programming,
                LanguageType::Markup => LanguageKind::Markup,
                LanguageType::Prose => LanguageKind::Prose,
            },
        }).collect()),
        Err(LinguistError::InvalidPath(p)) => Err(LookupError::InvalidPath(p)),
        Err(LinguistError::InvalidRegex { pattern, error }) => Err(LookupError::InvalidRegex { pattern, error }),
        Err(LinguistError::MissingNamedPattern(n)) => Err(LookupError::MissingNamedPattern(n)),
    }
}

/// Calls `linguist::detect_language_by_extension` on `path` and converts each
/// language it returns to a `Candidate`, or its error to a `LookupError`.
/// Trusted: the result is exactly `languages_by_extension(path@)`, and (as the
/// names come from an ordered set) no name occurs twice in it.
#[verifier::external_body]
fn detect_by_extension(path: &str) -> (found: Result<Vec<Candidate>, LookupError>)
    ensures
        match found {
            Ok(list) => {
                &&& languages_by_extension(path@) == Ok::<Seq<CandidateModel>, LookupErrorModel>(models(list@))
                &&& names_distinct(models(list@))
            },
            Err(e) => languages_by_extension(path@) == Err::<Seq<CandidateModel>, LookupErrorModel>(e@),
        },
{
    match linguist::detect_language_by_extension(path) {
        Ok(found) => Ok(found.iter().map(|l| Candidate {
            name: l.name.to_string(),
            group: l.definition.group.clone(),
            kind: match l.definition.language_type {
                LanguageType::Data => LanguageKind::Data,
                LanguageType::Programming => LanguageKind::Programming,
                LanguageType::Markup => LanguageKind::Markup,
                LanguageType::Prose => LanguageKind::Prose,
            },
        }).collect()),
        Err(LinguistError::InvalidPath(p)) => Err(LookupError::InvalidPath(p)),
        Err(LinguistError::InvalidRegex { pattern, error }) => Err(LookupError::InvalidRegex { pattern, error }),
        Err(LinguistError::MissingNamedPattern(n)) => Err(LookupError::MissingNamedPattern(n)),
    }
}

/// Calls `linguist::disambiguate` on `path` and `contents` and converts each
/// language it returns to a `Candidate`, or its error to a `LookupError`.
/// Trusted: the result is exactly `languages_by_heuristics(path@, contents@)`;
/// nothing more is claimed of it.
#[verifier::external_body]
fn detect_by_heuristics(path: &str, contents: &str) -> (found: Result<Vec<Candidate>, LookupError>)
    ensures
        match found {
            Ok(list) => languages_by_heuristics(path@, contents@) == Ok::<Seq<CandidateModel>, LookupErrorModel>(models(list@)),
            Err(e) => languages_by_heuristics(path@, contents@) == Err::<Seq<CandidateModel>, LookupErrorModel>(e@),
        },
{
    match linguist::disambiguate(path, contents) {
        Ok(found) => Ok(found.iter().map(|l| Candidate {
            name: l.name.to_string(),
            group: l.definition.group.clone(),
            kind: match l.definition.language_type {
                LanguageType::Data => LanguageKind::Data,
                LanguageType::Programming => LanguageKind::Programming,
                LanguageType::Markup => LanguageKind::Markup,
                LanguageType::Prose => LanguageKind::Prose,
            },
        }).collect()),
        Err(LinguistError::InvalidPath(p)) => Err(LookupError::InvalidPath(p)),
        Err(LinguistError::InvalidRegex { pattern, error }) => Err(LookupError::InvalidRegex { pattern, error }),
        Err(LinguistError::MissingNamedPattern(n)) => Err(LookupError::MissingNamedPattern(n)),
    }
}

/// Calls `std::path::Path::extension` on `path` and returns the extension as
/// a `String` when it is valid UTF-8. Trusted: the result is
/// `path_extension(path@)`, and (as the documentation says it is the part of
/// the file name after the final `.`) it holds no `.`.
#[verifier::external_body]
fn extension_of(path: &str) -> (extension: Option<String>)
    ensures
        match extension {
            Some(e) => path_extension(path@) == Some(e@) && forall|i: int|
                0 <= i < e@.len() ==> e@[i] != '.',
            None => path_extension(path@) is None,
        },
{
    std::path::Path::new(path).extension().and_then(|e| e.to_str()).map(|e| e.to_string())
}

/// Calls `String::from_utf8_lossy` on `bytes`. Trusted: the result is
/// `lossy_decoding(bytes@)`, and, as its documentation says, bytes that are
/// valid UTF-8 decode to exactly the text they encode. What replaces an
/// invalid sequence is not stated.
#[verifier::external_body]
fn decode_lossy(bytes: &[u8]) -> (text: String)
    ensures
        text@ == lossy_decoding(bytes@),
        valid_utf8(bytes@) ==> text@ == decode_utf8(bytes@),
{
    String::from_utf8_lossy(bytes).into_owned()
}

/// The snippets whose presence marks a `.rs` file as Rust source.
pub open spec fn rust_markers() -> Seq<&'static str> {
    seq![
        "fn ",
        "let ",
        "use ",
        "pub ",
        "mod ",
        "impl ",
        "trait ",
        "enum ",
        "struct ",
        "::",
        "println!",
        "format!",
        "match ",
    ]
}

/// `contents` holds at least one of the Rust markers.
pub open spec fn spec_looks_like_rust(contents: Seq<char>) -> bool {
    exists|k: int| 0 <= k < rust_markers().len() && contains_run(contents, #[trigger] rust_markers()[k]@)
}

/// Whether `file_contents` contains any of the Rust markers (`fn `, `let `,
/// `use `, `::`, `println!`, ...).
pub fn looks_like_rust(file_contents: &str) -> (looks: bool)
    ensures
        looks == spec_looks_like_rust(file_contents@),
{
    let markers: [&str; 13] = [
        "fn ",
        "let ",
        "use ",
        "pub ",
        "mod ",
        "impl ",
        "trait ",
        "enum ",
        "struct ",
        "::",
        "println!",
        "format!",
        "match ",
    ];
    assert(markers@ =~= rust_markers());
    let contents = chars_of(file_contents);
    let mut k: usize = 0;
    while k < 13
        invariant
            markers@ == rust_markers(),
            contents@ == file_contents@,
            k <= 13,
            forall|m: int| 0 <= m < k ==> !contains_run(contents@, #[trigger] rust_markers()[m]@),
        decreases 13 - k,
    {
        let marker = chars_of(markers[k]);
        if contains_chars(&contents, &marker) {
            return true;
        }
        k = k + 1;
    }
    false
}

/// The plain value of an optional string.
pub open spec fn opt_view(s: Option<String>) -> Option<Seq<char>> {
    match s {
        Some(v) => Some(v@),
        None => None,
    }
}

/// The extensions of Markdown documents, which are not counted as source.
pub open spec fn markdown_extensions() -> Seq<&'static str> {
    seq!["md", "markdown", "mdown", "mdwn", "mkd", "mkdn", "mkdown", "livemd"]
}

/// The file has a Markdown extension (in any ASCII case) and Markdown is among
/// its candidates.
pub open spec fn spec_non_source(extension: Option<Seq<char>>, candidates: Seq<CandidateModel>) -> bool {
    match extension {
        Some(e) => (exists|k: int|
            0 <= k < markdown_extensions().len() && ascii_lowercase_is(e, #[trigger] markdown_extensions()[k]@))
            && has_name(candidates, "Markdown"@),
        None => false,
    }
}

/// A `.rs` file (in any ASCII case) with Rust among its candidates and Rust
/// markers in its contents is Rust.
pub open spec fn spec_guess(extension: Option<Seq<char>>, contents: Seq<char>, candidates: Seq<CandidateModel>) -> Option<Seq<char>> {
    match extension {
        Some(e) => if ascii_lowercase_is(e, "rs"@) && has_name(candidates, "Rust"@) && spec_looks_like_rust(contents) {
            Some("Rust"@)
        } else {
            None
        },
        None => None,
    }
}

/// The decision that can be taken from the extension, the contents and the
/// candidates alone: `Some` of the language (or of `None`, not source), or
/// `None` when two or more programming languages remain among the candidates,
/// so that the heuristics must be asked.
pub open spec fn early_decision(
    extension: Option<Seq<char>>,
    contents: Seq<char>,
    candidates: Seq<CandidateModel>,
) -> Option<Option<Seq<char>>> {
    let programming = programming_only(candidates);
    if spec_non_source(extension, candidates) {
        Some(None)
    } else if spec_guess(extension, contents, candidates) is Some {
        Some(spec_guess(extension, contents, candidates))
    } else if candidates.len() == 0 {
        Some(None)
    } else if candidates.len() == 1 {
        Some(if is_programming(candidates[0]) { Some(display_name(candidates[0])) } else { None })
    } else if programming.len() == 1 {
        Some(Some(display_name(programming[0])))
    } else if programming.len() == 0 {
        Some(None)
    } else {
        None
    }
}

/// The decision once the heuristics have answered `found` for a file with
/// `count` candidates of which `programming` are programming languages: the
/// programming languages the heuristics name replace `programming` when there
/// are any, and a language is reported only when every candidate remains.
pub open spec fn after_disambiguation(
    count: nat,
    programming: Seq<CandidateModel>,
    found: Seq<CandidateModel>,
) -> Option<Seq<char>> {
    let narrowed = programming_only(found);
    let remaining = if narrowed.len() > 0 { narrowed } else { programming };
    if remaining.len() == 0 || remaining.len() != count {
        None
    } else {
        Some(display_name(remaining[0]))
    }
}

/// The candidates for `path`: those by file name, then those by extension
/// that add a new name, each list normalized; the error of the first lookup
/// that fails.
pub open spec fn collected_candidates(path: Seq<char>) -> Result<Seq<CandidateModel>, LookupErrorModel> {
    match languages_by_filename(path) {
        Err(e) => Err(e),
        Ok(by_name) => match languages_by_extension(path) {
            Err(e) => Err(e),
            Ok(by_ext) => Ok(appended(normalized(by_name), normalized(by_ext))),
        },
    }
}

/// The language reported for a text file at `path` with `contents`:
/// `Ok(Some(name))`, `Ok(None)` when the file is not counted as source, or
/// the error of the lookup that fails.
pub open spec fn detected_language(path: Seq<char>, contents: Seq<char>) -> Result<Option<Seq<char>>, LookupErrorModel> {
    match collected_candidates(path) {
        Err(e) => Err(e),
        Ok(all) => match early_decision(path_extension(path), contents, all) {
            Some(decided) => Ok(decided),
            None => match languages_by_heuristics(path, contents) {
                Err(e) => Err(e),
                Ok(found) => Ok(after_disambiguation(all.len(), programming_only(all), found)),
            },
        },
    }
}

/// The outcome that a detection returns for the outcome `spec` of the
/// decision: the language, or an error that carries the failed lookup's
/// message.
pub open spec fn reports(outcome: Result<Option<String>, DetectionError>, spec: Result<Option<Seq<char>>, LookupErrorModel>) -> bool {
    match outcome {
        Ok(l) => spec == Ok::<Option<Seq<char>>, LookupErrorModel>(opt_view(l)),
        Err(d) => match spec {
            Err(e) => d.message@ == lookup_error_text(e),
            Ok(_) => false,
        },
    }
}

/// Why a file's language could not be decided: the language detector
/// reported an error, whose message this holds.
#[derive(Debug)]
pub struct DetectionError {
    pub message: String,
}

/// The outcome of the decision taken before the heuristics are asked.
#[derive(Debug)]
pub enum Selection {
    /// The language (or `None`: the file is not counted as source).
    Decided(Option<String>),
    /// Several programming languages remain: these.
    Ambiguous(Vec<Candidate>),
}

/// Whether the file has a Markdown extension (in any ASCII case) and Markdown
/// is among its candidates.
pub fn is_known_non_source_extension(extension: &Option<String>, candidates: &Vec<Candidate>) -> (non_source: bool)
    ensures
        non_source == spec_non_source(opt_view(*extension), models(candidates@)),
{
    match extension {
        None => false,
        Some(e) => {
            let ext = chars_of(e.as_str());
            let listed: [&str; 8] = ["md", "markdown", "mdown", "mdwn", "mkd", "mkdn", "mkdown", "livemd"];
            assert(listed@ =~= markdown_extensions());
            let mut k: usize = 0;
            let mut markdown = false;
            while k < 8 && !markdown
                invariant
                    listed@ == markdown_extensions(),
                    ext@ == e@,
                    k <= 8,
                    markdown ==> exists|m: int| 0 <= m < 8 && ascii_lowercase_is(e@, #[trigger] markdown_extensions()[m]@),
                    !markdown ==> forall|m: int| 0 <= m < k ==> !ascii_lowercase_is(e@, #[trigger] markdown_extensions()[m]@),
                decreases 8 - k,
            {
                if ascii_lowercase_equals(&ext, listed[k]) {
                    markdown = true;
                }
                k = k + 1;
            }
            if !markdown {
                return false;
            }
            contains_name(candidates, &String::from_str("Markdown"))
        },
    }
}

/// `Some("Rust")` for a `.rs` file (in any ASCII case) with Rust among its
/// candidates and Rust markers in its contents; `None` otherwise.
pub fn guess_programming_language(extension: &Option<String>, file_contents: &str, candidates: &Vec<Candidate>) -> (guess: Option<String>)
    ensures
        opt_view(guess) == spec_guess(opt_view(*extension), file_contents@, models(candidates@)),
{
    match extension {
        None => None,
        Some(e) => {
            let ext = chars_of(e.as_str());
            if ascii_lowercase_equals(&ext, "rs") {
                let rust = String::from_str("Rust");
                if contains_name(candidates, &rust) && looks_like_rust(file_contents) {
                    return Some(rust);
                }
            }
            None
        },
    }
}

/// The decision that can be taken before the heuristics are asked (see
/// `early_decision`); when several programming languages remain it returns
/// them.
pub fn select_language(extension: &Option<String>, file_contents: &str, candidates: &Vec<Candidate>) -> (selection: Selection)
    ensures
        match selection {
            Selection::Decided(language) => early_decision(opt_view(*extension), file_contents@, models(candidates@))
                == Some(opt_view(language)),
            Selection::Ambiguous(programming) => {
                &&& early_decision(opt_view(*extension), file_contents@, models(candidates@)) is None
                &&& models(programming@) == programming_only(models(candidates@))
            },
        },
{
    if is_known_non_source_extension(extension, candidates) {
        return Selection::Decided(None);
    }
    let guess = guess_programming_language(extension, file_contents, candidates);
    if guess.is_some() {
        return Selection::Decided(guess);
    }
    if candidates.len() == 0 {
        return Selection::Decided(None);
    }
    if candidates.len() == 1 {
        assert(models(candidates@)[0] == candidates@[0]@);
        if let LanguageKind::Programming = candidates[0].kind {
            return Selection::Decided(Some(reported_name(&candidates[0])));
        }
        return Selection::Decided(None);
    }
    let programming = filter_programming_languages(candidates);
    if programming.len() == 1 {
        assert(models(programming@)[0] == programming@[0]@);
        return Selection::Decided(Some(reported_name(&programming[0])));
    }
    if programming.len() == 0 {
        return Selection::Decided(None);
    }
    Selection::Ambiguous(programming)
}

/// The decision once the heuristics have answered `found` (see
/// `after_disambiguation`).
pub fn resolve_ambiguity(candidate_count: usize, programming: &Vec<Candidate>, found: &Vec<Candidate>) -> (language: Option<String>)
    ensures
        opt_view(language) == after_disambiguation(candidate_count as nat, models(programming@), models(found@)),
{
    let narrowed = filter_programming_languages(found);
    if narrowed.len() > 0 {
        if narrowed.len() != candidate_count {
            return None;
        }
        assert(models(narrowed@)[0] == narrowed@[0]@);
        Some(reported_name(&narrowed[0]))
    } else {
        if programming.len() == 0 || programming.len() != candidate_count {
            return None;
        }
        assert(models(programming@)[0] == programming@[0]@);
        Some(reported_name(&programming[0]))
    }
}

/// The candidates for `path`: the languages found by file name, then those
/// found by extension that add a new name, each list normalized first.
pub fn collect_language_candidates(path: &str) -> (candidates: Result<Vec<Candidate>, DetectionError>)
    ensures
        match candidates {
            Ok(list) => {
                &&& collected_candidates(path@) == Ok::<Seq<CandidateModel>, LookupErrorModel>(models(list@))
                &&& names_distinct(models(list@))
            },
            Err(d) => match collected_candidates(path@) {
                Err(e) => d.message@ == lookup_error_text(e),
                Ok(_) => false,
            },
        },
{
    let by_filename = match detect_by_filename(path) {
        Ok(list) => list,
        Err(e) => return Err(DetectionError { message: lookup_error_message(&e) }),
    };
    let by_extension = match detect_by_extension(path) {
        Ok(list) => list,
        Err(e) => return Err(DetectionError { message: lookup_error_message(&e) }),
    };
    let merged = merge_candidates(&by_filename, &by_extension);
    proof {
        lemma_normalized_keeps_names_distinct(models(by_filename@));
        lemma_appended_keeps_names_distinct(normalized(models(by_filename@)), normalized(models(by_extension@)));
    }
    Ok(merged)
}

/// Decides the language of the text file at `path` whose contents are
/// `file_contents`: `Ok(Some(name))` for a source file, `Ok(None)` for a file
/// that is not counted, `Err` when the language detector fails.
pub fn detect_language(path: &str, file_contents: &str) -> (language: Result<Option<String>, DetectionError>)
    ensures
        reports(language, detected_language(path@, file_contents@)),
{
    let candidates = collect_language_candidates(path)?;
    let extension = extension_of(path);
    match select_language(&extension, file_contents, &candidates) {
        Selection::Decided(language) => Ok(language),
        Selection::Ambiguous(programming) => {
            let found = match detect_by_heuristics(path, file_contents) {
                Ok(list) => list,
                Err(e) => return Err(DetectionError { message: lookup_error_message(&e) }),
            };
            Ok(resolve_ambiguity(candidates.len(), &programming, &found))
        },
    }
}

/// Decides the language of the file at `path` whose bytes are `bytes`, read
/// as UTF-8 with invalid sequences replaced (see `detect_language`).
pub fn detect_file_language(path: &str, bytes: &[u8]) -> (language: Result<Option<String>, DetectionError>)
    ensures
        reports(language, detected_language(path@, lossy_decoding(bytes@))),
{
    let contents = decode_lossy(bytes);
    detect_language(path, contents.as_str())
}

/// Decides the language of the file at `path` whose file type is named
/// `file_type_name` and whose bytes are `bytes`: a binary file is not counted,
/// any other is decided as `detect_file_language` does.
pub fn classify_file(path: &str, file_type_name: &str, bytes: &[u8]) -> (language: Result<Option<String>, DetectionError>)
    ensures
        file_type_name@ == "Binary"@ ==> language == Ok::<Option<String>, DetectionError>(None),
        file_type_name@ != "Binary"@ ==> reports(language, detected_language(path@, lossy_decoding(bytes@))),
{
    if is_binary_file_type(file_type_name) {
        return Ok(None);
    }
    detect_file_language(path, bytes)
}

/// Whether a file type name is the one given to binary files.
pub fn is_binary_file_type(name: &str) -> (binary: bool)
    ensures
        binary == (name@ == "Binary"@),
{
    String::from_str(name) == String::from_str("Binary")
}

/// Normalizing a list without repeated names leaves none repeated.
pub proof fn lemma_normalized_keeps_names_distinct(list: Seq<CandidateModel>)
    requires
        names_distinct(list),
    ensures
        names_distinct(normalized(list)),
        forall|i: int| 0 <= i < normalized(list).len() ==> list.contains(#[trigger] normalized(list)[i]),
    decreases list.len(),
{
    if list.len() > 0 {
        let rest = list.drop_last();
        let last = list.last();
        assert(names_distinct(rest)) by {
            assert forall|i: int, j: int| 0 <= i < j < rest.len() implies (#[trigger] rest[i]).0 != (#[trigger] rest[j]).0 by {
                assert(rest[i] == list[i] && rest[j] == list[j]);
            }
        }
        lemma_normalized_keeps_names_distinct(rest);
        let kept = normalized(rest);
        let all = normalized(list);
        assert forall|i: int| 0 <= i < kept.len() implies (#[trigger] kept[i]).0 != last.0 by {
            assert(rest.contains(kept[i]));
            let k: int = choose|k: int| 0 <= k < rest.len() && rest[k] == kept[i];
            assert(list[k] == kept[i]);
        }
        assert forall|i: int| 0 <= i < all.len() implies list.contains(#[trigger] all[i]) by {
            if i < kept.len() {
                assert(all[i] == kept[i]);
                let k: int = choose|k: int| 0 <= k < rest.len() && rest[k] == kept[i];
                assert(list[k] == kept[i]);
            } else {
                assert(all[i] == list[list.len() - 1]);
            }
        }
        assert forall|i: int, j: int| 0 <= i < j < all.len() implies (#[trigger] all[i]).0 != (#[trigger] all[j]).0 by {
            if j < kept.len() {
                assert(all[i] == kept[i] && all[j] == kept[j]);
            } else {
                assert(all[i] == kept[i] && all[j] == last);
            }
        }
    }
}

/// Appending only candidates of new names to a list without repeated names
/// leaves none repeated.
pub proof fn lemma_appended_keeps_names_distinct(base: Seq<CandidateModel>, extra: Seq<CandidateModel>)
    requires
        names_distinct(base),
    ensures
        names_distinct(appended(base, extra)),
    decreases extra.len(),
{
    if extra.len() > 0 {
        lemma_appended_keeps_names_distinct(base, extra.drop_last());
        let so_far = appended(base, extra.drop_last());
        let all = appended(base, extra);
        if !has_name(so_far, extra.last().0) {
            assert forall|i: int, j: int| 0 <= i < j < all.len() implies (#[trigger] all[i]).0 != (#[trigger] all[j]).0 by {
                if j < so_far.len() {
                    assert(all[i] == so_far[i] && all[j] == so_far[j]);
                } else {
                    assert(all[i] == so_far[i]);
                }
            }
        }
    }
}

/// `text` holds `run` as a contiguous stretch, starting at some position.
pub open spec fn holds_run(text: Seq<char>, run: Seq<char>) -> bool {
    exists|i: int| 0 <= i && i + run.len() <= text.len() && #[trigger] text.subrange(i, i + run.len()) == run
}

/// The Rust markers are exactly `fn `, `let `, `use `, `pub `, `mod `,
/// `impl `, `trait `, `enum `, `struct `, `::`, `println!`, `format!` and
/// `match `: contents that hold any of them, anywhere, look like Rust, and
/// contents that look like Rust hold one of them.
pub proof fn lemma_rust_markers_are_exactly(contents: Seq<char>)
    ensures
        holds_run(contents, "fn "@) ==> spec_looks_like_rust(contents),
        holds_run(contents, "let "@) ==> spec_looks_like_rust(contents),
        holds_run(contents, "use "@) ==> spec_looks_like_rust(contents),
        holds_run(contents, "pub "@) ==> spec_looks_like_rust(contents),
        holds_run(contents, "mod "@) ==> spec_looks_like_rust(contents),
        holds_run(contents, "impl "@) ==> spec_looks_like_rust(contents),
        holds_run(contents, "trait "@) ==> spec_looks_like_rust(contents),
        holds_run(contents, "enum "@) ==> spec_looks_like_rust(contents),
        holds_run(contents, "struct "@) ==> spec_looks_like_rust(contents),
        holds_run(contents, "::"@) ==> spec_looks_like_rust(contents),
        holds_run(contents, "println!"@) ==> spec_looks_like_rust(contents),
        holds_run(contents, "format!"@) ==> spec_looks_like_rust(contents),
        holds_run(contents, "match "@) ==> spec_looks_like_rust(contents),
        spec_looks_like_rust(contents) ==> {
            ||| holds_run(contents, "fn "@)
            ||| holds_run(contents, "let "@)
            ||| holds_run(contents, "use "@)
            ||| holds_run(contents, "pub "@)
            ||| holds_run(contents, "mod "@)
            ||| holds_run(contents, "impl "@)
            ||| holds_run(contents, "trait "@)
            ||| holds_run(contents, "enum "@)
            ||| holds_run(contents, "struct "@)
            ||| holds_run(contents, "::"@)
            ||| holds_run(contents, "println!"@)
            ||| holds_run(contents, "format!"@)
            ||| holds_run(contents, "match "@)
        },
{
    if holds_run(contents, "fn "@) {
        assert(rust_markers()[0] == "fn ");
        assert(contains_run(contents, rust_markers()[0]@));
    }
    if holds_run(contents, "let "@) {
        assert(rust_markers()[1] == "let ");
        assert(contains_run(contents, rust_markers()[1]@));
    }
    if holds_run(contents, "use "@) {
        assert(rust_markers()[2] == "use ");
        assert(contains_run(contents, rust_markers()[2]@));
    }
    if holds_run(contents, "pub "@) {
        assert(rust_markers()[3] == "pub ");
        assert(contains_run(contents, rust_markers()[3]@));
    }
    if holds_run(contents, "mod "@) {
        assert(rust_markers()[4] == "mod ");
        assert(contains_run(contents, rust_markers()[4]@));
    }
    if holds_run(contents, "impl "@) {
        assert(rust_markers()[5] == "impl ");
        assert(contains_run(contents, rust_markers()[5]@));
    }
    if holds_run(contents, "trait "@) {
        assert(rust_markers()[6] == "trait ");
        assert(contains_run(contents, rust_markers()[6]@));
    }
    if holds_run(contents, "enum "@) {
        assert(rust_markers()[7] == "enum ");
        assert(contains_run(contents, rust_markers()[7]@));
    }
    if holds_run(contents, "struct "@) {
        assert(rust_markers()[8] == "struct ");
        assert(contains_run(contents, rust_markers()[8]@));
    }
    if holds_run(contents, "::"@) {
        assert(rust_markers()[9] == "::");
        assert(contains_run(contents, rust_markers()[9]@));
    }
    if holds_run(contents, "println!"@) {
        assert(rust_markers()[10] == "println!");
        assert(contains_run(contents, rust_markers()[10]@));
    }
    if holds_run(contents, "format!"@) {
        assert(rust_markers()[11] == "format!");
        assert(contains_run(contents, rust_markers()[11]@));
    }
    if holds_run(contents, "match "@) {
        assert(rust_markers()[12] == "match ");
        assert(contains_run(contents, rust_markers()[12]@));
    }
    if spec_looks_like_rust(contents) {
        let k = choose|k: int| 0 <= k < rust_markers().len() && contains_run(contents, #[trigger] rust_markers()[k]@);
        assert(holds_run(contents, rust_markers()[k]@));
    }
}

/// A `.rs` file (in any ASCII case) that is not excluded, has Rust among its
/// candidates and holds any of the Rust markers anywhere in its contents is
/// counted as Rust.
pub proof fn lemma_rust_file_with_marker_detected(path: Seq<char>, contents: Seq<char>)
    requires
        collected_candidates(path) is Ok,
        !spec_non_source(path_extension(path), collected_candidates(path)->Ok_0),
        path_extension(path) is Some,
        ascii_lowercase_is(path_extension(path)->0, "rs"@),
        has_name(collected_candidates(path)->Ok_0, "Rust"@),
        ({
            ||| holds_run(contents, "fn "@)
            ||| holds_run(contents, "let "@)
            ||| holds_run(contents, "use "@)
            ||| holds_run(contents, "pub "@)
            ||| holds_run(contents, "mod "@)
            ||| holds_run(contents, "impl "@)
            ||| holds_run(contents, "trait "@)
            ||| holds_run(contents, "enum "@)
            ||| holds_run(contents, "struct "@)
            ||| holds_run(contents, "::"@)
            ||| holds_run(contents, "println!"@)
            ||| holds_run(contents, "format!"@)
            ||| holds_run(contents, "match "@)
        }),
    ensures
        detected_language(path, contents) == Ok::<Option<Seq<char>>, LookupErrorModel>(Some("Rust"@)),
{
    lemma_rust_markers_are_exactly(contents);
    lemma_rust_with_markers_is_rust(path, contents);
}

/// Markdown documents are never counted: a file with a Markdown extension
/// (in any ASCII case) and Markdown among its candidates gets no language.
pub proof fn lemma_markdown_not_counted(path: Seq<char>, contents: Seq<char>)
    requires
        collected_candidates(path) is Ok,
        spec_non_source(path_extension(path), collected_candidates(path)->Ok_0),
    ensures
        detected_language(path, contents) == Ok::<Option<Seq<char>>, LookupErrorModel>(None),
{
}

/// A `.rs` file (in any ASCII case) that is not excluded, has Rust among its
/// candidates and holds a Rust marker is counted as Rust.
pub proof fn lemma_rust_with_markers_is_rust(path: Seq<char>, contents: Seq<char>)
    requires
        collected_candidates(path) is Ok,
        !spec_non_source(path_extension(path), collected_candidates(path)->Ok_0),
        path_extension(path) is Some,
        ascii_lowercase_is(path_extension(path)->0, "rs"@),
        has_name(collected_candidates(path)->Ok_0, "Rust"@),
        spec_looks_like_rust(contents),
    ensures
        detected_language(path, contents) == Ok::<Option<Seq<char>>, LookupErrorModel>(Some("Rust"@)),
{
}

/// The programming languages kept are programming languages of the list.
proof fn lemma_programming_only_members(list: Seq<CandidateModel>)
    ensures
        forall|k: int|
            0 <= k < programming_only(list).len() ==> is_programming(#[trigger] programming_only(list)[k])
                && list.contains(programming_only(list)[k]),
    decreases list.len(),
{
    if list.len() > 0 {
        let rest = list.drop_last();
        lemma_programming_only_members(rest);
        let kept = programming_only(list);
        assert forall|k: int| 0 <= k < kept.len() implies is_programming(#[trigger] kept[k]) && list.contains(kept[k]) by {
            if k < programming_only(rest).len() {
                assert(kept[k] == programming_only(rest)[k]);
                let m: int = choose|m: int| 0 <= m < rest.len() && rest[m] == kept[k];
                assert(list[m] == kept[k]);
            } else {
                assert(kept[k] == list[list.len() - 1]);
            }
        }
    }
}

/// Some programming language in `list` is reported under `name`.
pub open spec fn reports_programming(list: Seq<CandidateModel>, name: Seq<char>) -> bool {
    exists|i: int| 0 <= i < list.len() && is_programming(#[trigger] list[i]) && display_name(list[i]) == name
}

/// Only programming languages are counted: a language reported for a file is
/// Rust (recognised by its markers, with Rust among the candidates), or the
/// reported name of a programming language among the file's candidates or
/// among those the heuristics named.
pub proof fn lemma_detected_language_is_programming(path: Seq<char>, contents: Seq<char>, language: Seq<char>)
    requires
        detected_language(path, contents) == Ok::<Option<Seq<char>>, LookupErrorModel>(Some(language)),
    ensures
        collected_candidates(path) is Ok,
        ({
            let all = collected_candidates(path)->Ok_0;
            ||| (language == "Rust"@ && has_name(all, "Rust"@))
            ||| reports_programming(all, language)
            ||| (match languages_by_heuristics(path, contents) {
                Ok(found) => reports_programming(found, language),
                Err(_) => false,
            })
        }),
{
    let all = collected_candidates(path)->Ok_0;
    let extension = path_extension(path);
    let programming = programming_only(all);
    lemma_programming_only_members(all);
    match early_decision(extension, contents, all) {
        Some(decided) => {
            if spec_non_source(extension, all) {
            } else if spec_guess(extension, contents, all) is Some {
            } else if all.len() == 1 {
                assert(is_programming(all[0]));
            } else {
                assert(programming.len() == 1);
                let m: int = choose|m: int| 0 <= m < all.len() && all[m] == programming[0];
                assert(is_programming(all[m]) && display_name(all[m]) == language);
            }
        },
        None => {
            let found = languages_by_heuristics(path, contents)->Ok_0;
            let narrowed = programming_only(found);
            lemma_programming_only_members(found);
            if narrowed.len() > 0 {
                let m: int = choose|m: int| 0 <= m < found.len() && found[m] == narrowed[0];
                assert(is_programming(found[m]) && display_name(found[m]) == language);
            } else {
                let m: int = choose|m: int| 0 <= m < all.len() && all[m] == programming[0];
                assert(is_programming(all[m]) && display_name(all[m]) == language);
            }
        },
    }
}

} // verus!
