//! The per-file aggregator and the roster store.
//!
//! One document's extracted rows are canonicalized, entries whose
//! lower-cased identity is in the ignore set are dropped, and the file's
//! qualifying maximum (the largest remaining raw score) is computed. The
//! store keeps one `FileResult` per label in insertion order; re-adding a
//! label replaces its result in place. Standardized scores, per-identity
//! averages and the ranking are derived views, recomputed on demand.
use vstd::prelude::*;
use vstd::multiset::Multiset;
use vstd::string::StringExecFns;

use crate::canon::{canon_spec, canonicalize, CanonConfig, CanonConfigV, NameStrategy};
use crate::dom::{decode_utf8_bytes, dom_of, dom_view, parse_document};
use crate::extract::{
    entries_view, extract_rows, lemma_extract_bounds, spec_extract, RawEntry, RawEntryV,
    TableLocator,
};
use crate::num::{
    abs_int, div_trunc, div_trunc_i128, std_micros, std_micros_exec, MAX_ABS_MICROS, MAX_ABS_STD,
};
use crate::text::{
    contains_str, lex_lt, lower_seq, spec_contains_str, str_eq, str_lt, strings_view, to_lower,
};
use crate::{RosterError, Warning};

verus! {

/// The most files one store accepts; keeps every score sum far inside the
/// machine integer range.
pub const MAX_FILES: usize = 1_000_000_000;

/// One scored person of one file: the canonical identity and the raw score
/// in micro-points.
pub struct PersonEntry {
    pub identity: String,
    pub raw_micros: i64,
}

pub ghost struct PersonEntryV {
    pub identity: Seq<char>,
    pub raw: int,
}

impl View for PersonEntry {
    type V = PersonEntryV;

    open spec fn view(&self) -> PersonEntryV {
        PersonEntryV { identity: self.identity@, raw: self.raw_micros as int }
    }
}

pub open spec fn people_view(v: Seq<PersonEntry>) -> Seq<PersonEntryV> {
    v.map_values(|e: PersonEntry| e@)
}

/// One document's aggregated result: its label, its filtered entries in
/// document order, and the qualifying maximum raw score.
pub struct FileResult {
    pub label: String,
    pub entries: Vec<PersonEntry>,
    pub qualifying_max: i64,
}

pub ghost struct FileResultV {
    pub label: Seq<char>,
    pub entries: Seq<PersonEntryV>,
    pub qmax: int,
}

impl View for FileResult {
    type V = FileResultV;

    open spec fn view(&self) -> FileResultV {
        FileResultV {
            label: self.label@,
            entries: people_view(self.entries@),
            qmax: self.qualifying_max as int,
        }
    }
}

pub open spec fn files_view(v: Seq<FileResult>) -> Seq<FileResultV> {
    v.map_values(|f: FileResult| f@)
}

/// The whole pipeline's immutable configuration.
pub struct PipelineConfig {
    /// The canonicalizer's tables and strategy.
    pub canon: CanonConfig,
    /// Identities excluded from scoring; membership is tested on the
    /// lower-cased canonical identity.
    pub ignore: Vec<String>,
    /// How the roster table is located.
    pub locator: TableLocator,
}

pub ghost struct PipelineConfigV {
    pub canon: CanonConfigV,
    pub ignore: Seq<Seq<char>>,
    pub locator: TableLocator,
}

impl View for PipelineConfig {
    type V = PipelineConfigV;

    open spec fn view(&self) -> PipelineConfigV {
        PipelineConfigV {
            canon: self.canon@,
            ignore: strings_view(self.ignore@),
            locator: self.locator,
        }
    }
}

/// The configuration the score tool ships with: no patches, one
/// alias (the short code `cqyc-wht` displays as `CQYC-` followed by the
/// person's name), the baseline identity `std` ignored, lookup-only name
/// handling, and the table under the third paragraph.
pub fn default_config() -> (r: PipelineConfig)
    ensures
        r.canon.patch@.len() == 0,
        r.canon.alias@.len() == 1,
        r.canon.alias@[0].0@ == "cqyc-wht"@,
        r.canon.alias@[0].1@ == "CQYC-\u{738b}\u{9e3f}\u{5929}"@,
        r.canon.strategy == NameStrategy::LookupOnly,
        r.ignore@.len() == 1,
        r.ignore@[0]@ == "std"@,
        r.locator == TableLocator::ThirdParagraphTable,
{
    let mut alias: Vec<(String, String)> = Vec::new();
    alias.push(
        (String::from_str("cqyc-wht"), String::from_str("CQYC-\u{738b}\u{9e3f}\u{5929}")),
    );
    let mut ignore: Vec<String> = Vec::new();
    ignore.push(String::from_str("std"));
    PipelineConfig {
        canon: CanonConfig { patch: Vec::new(), alias, strategy: NameStrategy::LookupOnly },
        ignore,
        locator: TableLocator::ThirdParagraphTable,
    }
}

/// One extracted row after canonicalization.
pub open spec fn canon_entry(e: RawEntryV, cfg: CanonConfigV) -> PersonEntryV {
    PersonEntryV { identity: canon_spec(e.name, cfg), raw: e.micros }
}

/// The extracted rows canonicalized, with ignored identities dropped.
pub open spec fn pipeline_people(
    raws: Seq<RawEntryV>,
    canon: CanonConfigV,
    ignore: Seq<Seq<char>>,
) -> Seq<PersonEntryV>
    decreases raws.len(),
{
    if raws.len() == 0 {
        Seq::empty()
    } else {
        let rest = pipeline_people(raws.drop_last(), canon, ignore);
        let p = canon_entry(raws.last(), canon);
        if spec_contains_str(ignore, lower_seq(p.identity)) {
            rest
        } else {
            rest.push(p)
        }
    }
}

/// The qualifying maximum: the largest raw score of the filtered entries.
pub open spec fn qmax_spec(entries: Seq<PersonEntryV>) -> int
    decreases entries.len(),
{
    if entries.len() == 0 {
        0
    } else if entries.len() == 1 {
        entries[0].raw
    } else {
        let m = qmax_spec(entries.drop_last());
        if entries.last().raw > m {
            entries.last().raw
        } else {
            m
        }
    }
}

/// The qualifying maximum bounds every raw score and is attained by one.
pub proof fn lemma_qmax_is_max(entries: Seq<PersonEntryV>)
    requires
        entries.len() > 0,
    ensures
        forall|i: int| 0 <= i < entries.len() ==> #[trigger] entries[i].raw <= qmax_spec(entries),
        exists|i: int| 0 <= i < entries.len() && #[trigger] entries[i].raw == qmax_spec(entries),
    decreases entries.len(),
{
    if entries.len() == 1 {
        assert(entries[0].raw == qmax_spec(entries));
    } else {
        lemma_qmax_is_max(entries.drop_last());
        let d = entries.drop_last();
        assert(forall|i: int| 0 <= i < d.len() ==> entries[i] == d[i]);
        if entries.last().raw > qmax_spec(d) {
            assert(entries[entries.len() - 1].raw == qmax_spec(entries));
        } else {
            let i = choose|i: int| 0 <= i < d.len() && #[trigger] d[i].raw == qmax_spec(d);
            assert(entries[i].raw == qmax_spec(entries));
        }
    }
}

/// What processing one document does, from its bytes to its stored result
/// and warnings, or the error that rejects it.
pub open spec fn spec_process(
    label: Seq<char>,
    bytes: Seq<u8>,
    cfg: PipelineConfigV,
) -> Result<(FileResultV, Seq<Warning>), RosterError> {
    if !vstd::utf8::valid_utf8(bytes) {
        Err(RosterError::Encoding)
    } else {
        let dom = dom_of(vstd::utf8::decode_utf8(bytes));
        match spec_extract(dom, cfg.locator) {
            Err(e) => Err(e),
            Ok((raws, ws)) => {
                let people = pipeline_people(raws, cfg.canon, cfg.ignore);
                if people.len() == 0 {
                    Err(RosterError::EmptyResult)
                } else {
                    let qm = qmax_spec(people);
                    let fr = FileResultV { label: label, entries: people, qmax: qm };
                    Ok(
                        (
                            fr,
                            if qm == 0 {
                                ws.push(Warning::DegenerateMax)
                            } else {
                                ws
                            },
                        ),
                    )
                }
            },
        }
    }
}

/// First stored file with this label, at or after `from`.
pub open spec fn find_label_from(files: Seq<FileResultV>, from: int, label: Seq<char>) -> Option<
    int,
>
    decreases files.len() - from,
{
    if from < 0 || from >= files.len() {
        None
    } else if files[from].label == label {
        Some(from)
    } else {
        find_label_from(files, from + 1, label)
    }
}

/// First entry of a file with this identity, at or after `from`.
pub open spec fn find_entry_from(entries: Seq<PersonEntryV>, from: int, id: Seq<char>) -> Option<
    int,
>
    decreases entries.len() - from,
{
    if from < 0 || from >= entries.len() {
        None
    } else if entries[from].identity == id {
        Some(from)
    } else {
        find_entry_from(entries, from + 1, id)
    }
}

/// How adding a processed file changes the stored sequence: an existing
/// label is replaced in place, a new one is appended.
pub open spec fn spec_add(files: Seq<FileResultV>, fr: FileResultV) -> Seq<FileResultV> {
    match find_label_from(files, 0, fr.label) {
        Some(j) => files.update(j, fr),
        None => files.push(fr),
    }
}

/// Whether some stored file has an entry with this identity.
pub open spec fn appears(files: Seq<FileResultV>, id: Seq<char>) -> bool {
    exists|f: int, e: int|
        0 <= f < files.len() && 0 <= e < #[trigger] files[f].entries.len()
            && (#[trigger] files[f].entries[e]).identity == id
}

/// A well-formed stored file: its recorded qualifying maximum is the
/// maximum of its entries' raw scores, and everything is within the
/// fixed-point range.
pub open spec fn file_wf(f: FileResultV) -> bool {
    &&& f.entries.len() > 0
    &&& f.qmax == qmax_spec(f.entries)
    &&& abs_int(f.qmax) <= MAX_ABS_MICROS
    &&& forall|e: int| 0 <= e < f.entries.len() ==> abs_int(#[trigger] f.entries[e].raw) <= MAX_ABS_MICROS
}

/// The standardized score and the raw score of an identity in the file
/// with this label, or nothing where either is unknown.
pub open spec fn lookup_std(files: Seq<FileResultV>, label: Seq<char>, id: Seq<char>) -> Option<
    (int, int),
> {
    match find_label_from(files, 0, label) {
        None => None,
        Some(f) => match find_entry_from(files[f].entries, 0, id) {
            None => None,
            Some(e) => Some(
                (std_micros(files[f].entries[e].raw, files[f].qmax), files[f].entries[e].raw),
            ),
        },
    }
}

/// The standardized scores an identity has across the stored files, in
/// file order; files where it has no entry contribute nothing.
pub open spec fn scores_of(files: Seq<FileResultV>, id: Seq<char>) -> Seq<int>
    decreases files.len(),
{
    if files.len() == 0 {
        Seq::empty()
    } else {
        let rest = scores_of(files.drop_last(), id);
        let f = files.last();
        match find_entry_from(f.entries, 0, id) {
            Some(e) => rest.push(std_micros(f.entries[e].raw, f.qmax)),
            None => rest,
        }
    }
}

pub open spec fn sum_seq(s: Seq<int>) -> int
    decreases s.len(),
{
    if s.len() == 0 {
        0
    } else {
        sum_seq(s.drop_last()) + s.last()
    }
}

/// The cross-file average standardized score of an identity: the mean of
/// its standardized scores over the files where it has data, truncated
/// toward zero; zero where it has data nowhere.
pub open spec fn avg_spec(files: Seq<FileResultV>, id: Seq<char>) -> int {
    let sc = scores_of(files, id);
    if sc.len() == 0 {
        0
    } else {
        div_trunc(sum_seq(sc), sc.len() as int)
    }
}

/// One line of the ranked summary.
pub struct RankEntry {
    pub identity: String,
    pub avg_std_micros: i128,
}

pub ghost struct RankEntryV {
    pub identity: Seq<char>,
    pub avg: int,
}

impl View for RankEntry {
    type V = RankEntryV;

    open spec fn view(&self) -> RankEntryV {
        RankEntryV { identity: self.identity@, avg: self.avg_std_micros as int }
    }
}

pub open spec fn rank_view(v: Seq<RankEntry>) -> Seq<RankEntryV> {
    v.map_values(|e: RankEntry| e@)
}

/// The ranking order: larger average first; equal averages are broken by
/// the identity in ascending lexicographic order, so the output is
/// reproducible.
pub open spec fn rank_leq(a: RankEntryV, b: RankEntryV) -> bool {
    ||| a.avg > b.avg
    ||| (a.avg == b.avg && (lex_lt(a.identity, b.identity) || a.identity == b.identity))
}

/// Whether a ranking is sorted: each line ranks no lower than every later
/// line.
pub open spec fn ranking_sorted(s: Seq<RankEntryV>) -> bool {
    forall|i: int, j: int| 0 <= i < j < s.len() ==> rank_leq(#[trigger] s[i], #[trigger] s[j])
}

/// The ranking order is total.
pub proof fn lemma_rank_total(a: RankEntryV, b: RankEntryV)
    ensures
        rank_leq(a, b) || rank_leq(b, a),
{
    if a.avg == b.avg {
        crate::text::lemma_lex_total(a.identity, b.identity);
    }
}

/// The ranking order holds both ways only between equal lines.
pub proof fn lemma_rank_antisym(a: RankEntryV, b: RankEntryV)
    requires
        rank_leq(a, b),
        rank_leq(b, a),
    ensures
        a == b,
{
    assert(a.avg == b.avg);
    if a.identity != b.identity {
        crate::text::lemma_lex_asym(a.identity, b.identity);
    }
    assert(a == (RankEntryV { identity: b.identity, avg: b.avg }));
}

/// The ranking order is transitive.
pub proof fn lemma_rank_trans(a: RankEntryV, b: RankEntryV, c: RankEntryV)
    requires
        rank_leq(a, b),
        rank_leq(b, c),
    ensures
        rank_leq(a, c),
{
    if a.avg == b.avg && b.avg == c.avg {
        if lex_lt(a.identity, b.identity) && lex_lt(b.identity, c.identity) {
            crate::text::lemma_lex_trans(a.identity, b.identity, c.identity);
        }
    }
}

/// The line every identity contributes to the ranked summary.
pub open spec fn rank_line(files: Seq<FileResultV>, id: Seq<char>) -> RankEntryV {
    RankEntryV { identity: id, avg: avg_spec(files, id) }
}

/// The session's accumulated state: the per-file results in insertion
/// order, the set of identities seen in the stored files, and the
/// pass-through display precision.
pub struct RosterStore {
    /// One result per label, in first-insertion order.
    pub files: Vec<FileResult>,
    /// Every identity occurring in some stored file, each once, in first
    /// appearance order.
    pub identities: Vec<String>,
    /// Decimal display precision, stored for the rendering layer and not
    /// interpreted by the pipeline.
    pub precision: usize,
    /// The pipeline's configuration.
    pub config: PipelineConfig,
}

impl RosterStore {
    /// The store's invariant: labels are unique, every stored file is
    /// well-formed, and `identities` holds exactly the identities of the
    /// stored files, each once.
    pub open spec fn wf(&self) -> bool {
        let fv = files_view(self.files@);
        let ids = strings_view(self.identities@);
        &&& self.files@.len() <= MAX_FILES
        &&& forall|i: int, j: int|
            0 <= i < j < fv.len() ==> (#[trigger] fv[i]).label != (#[trigger] fv[j]).label
        &&& forall|f: int| 0 <= f < fv.len() ==> file_wf(#[trigger] fv[f])
        &&& forall|i: int, j: int| 0 <= i < j < ids.len() ==> ids[i] != ids[j]
        &&& forall|i: int| 0 <= i < ids.len() ==> appears(fv, #[trigger] ids[i])
        &&& forall|f: int, e: int|
            0 <= f < fv.len() && 0 <= e < (#[trigger] fv[f]).entries.len() ==> spec_contains_str(
                ids,
                (#[trigger] fv[f].entries[e]).identity,
            )
    }

    /// An empty store with this configuration and the default display
    /// precision of two decimals.
    pub fn new(config: PipelineConfig) -> (r: RosterStore)
        ensures
            r.wf(),
            r.files@.len() == 0,
            r.identities@.len() == 0,
            r.precision == 2,
            r.config == config,
    {
        RosterStore { files: Vec::new(), identities: Vec::new(), precision: 2, config }
    }

    /// Discards every stored file and resets the display precision; the
    /// configuration is kept.
    pub fn clear(&mut self)
        ensures
            final(self).wf(),
            final(self).files@.len() == 0,
            final(self).identities@.len() == 0,
            final(self).precision == 2,
            final(self).config == old(self).config,
    {
        self.files = Vec::new();
        self.identities = Vec::new();
        self.precision = 2;
    }

    pub fn file_count(&self) -> (r: usize)
        ensures
            r == self.files@.len(),
    {
        self.files.len()
    }

    pub fn set_precision(&mut self, p: usize)
        ensures
            *final(self) == (RosterStore { precision: p, ..*old(self) }),
    {
        self.precision = p;
    }

    /// The stored labels, in insertion order.
    pub fn labels(&self) -> (r: Vec<String>)
        ensures
            strings_view(r@) == files_view(self.files@).map_values(|f: FileResultV| f.label),
    {
        let mut r: Vec<String> = Vec::new();
        let n = self.files.len();
        for i in 0..n
            invariant
                n == self.files@.len(),
                r@.len() == i,
                forall|k: int| 0 <= k < i ==> #[trigger] r@[k]@ == files_view(self.files@)[k].label,
        {
            r.push(self.files[i].label.clone());
        }
        assert(strings_view(r@) =~= files_view(self.files@).map_values(|f: FileResultV| f.label));
        r
    }
}

/// First stored file with this label.
fn find_label_exec(files: &Vec<FileResult>, label: &str) -> (r: Option<usize>)
    ensures
        match r {
            Some(j) => find_label_from(files_view(files@), 0, label@) == Some(j as int) && j
                < files@.len(),
            None => find_label_from(files_view(files@), 0, label@) is None,
        },
{
    let ghost fv = files_view(files@);
    let n = files.len();
    let mut j: usize = 0;
    while j < n
        invariant
            n == files@.len(),
            0 <= j <= n,
            fv == files_view(files@),
            find_label_from(fv, 0, label@) == find_label_from(fv, j as int, label@),
        decreases n - j,
    {
        if str_eq(files[j].label.as_str(), label) {
            return Some(j);
        }
        j += 1;
    }
    None
}

/// First entry of a file with this identity.
fn find_entry_exec(entries: &Vec<PersonEntry>, id: &str) -> (r: Option<usize>)
    ensures
        match r {
            Some(e) => find_entry_from(people_view(entries@), 0, id@) == Some(e as int) && e
                < entries@.len(),
            None => find_entry_from(people_view(entries@), 0, id@) is None,
        },
{
    let ghost ev = people_view(entries@);
    let n = entries.len();
    let mut j: usize = 0;
    while j < n
        invariant
            n == entries@.len(),
            0 <= j <= n,
            ev == people_view(entries@),
            find_entry_from(ev, 0, id@) == find_entry_from(ev, j as int, id@),
        decreases n - j,
    {
        if str_eq(entries[j].identity.as_str(), id) {
            return Some(j);
        }
        j += 1;
    }
    None
}

/// Whatever `find_label_from` says is right: a hit is the first match and
/// a miss means no match.
pub proof fn lemma_find_label_props(files: Seq<FileResultV>, from: int, label: Seq<char>)
    requires
        0 <= from,
    ensures
        match find_label_from(files, from, label) {
            Some(j) => from <= j < files.len() && files[j].label == label && forall|k: int|
                from <= k < j ==> (#[trigger] files[k]).label != label,
            None => forall|k: int| from <= k < files.len() ==> (#[trigger] files[k]).label != label,
        },
    decreases files.len() - from,
{
    if from < files.len() && files[from].label != label {
        lemma_find_label_props(files, from + 1, label);
    }
}

/// Recomputes the set of identities occurring in the stored files.
fn recompute_identities(files: &Vec<FileResult>) -> (r: Vec<String>)
    ensures
        forall|i: int, j: int|
            0 <= i < j < r@.len() ==> strings_view(r@)[i] != strings_view(r@)[j],
        forall|i: int| 0 <= i < r@.len() ==> appears(files_view(files@), strings_view(r@)[i]),
        forall|f: int, e: int|
            0 <= f < files_view(files@).len() && 0 <= e < (#[trigger] files_view(
                files@,
            )[f]).entries.len() ==> spec_contains_str(
                strings_view(r@),
                (#[trigger] files_view(files@)[f].entries[e]).identity,
            ),
{
    let ghost fv = files_view(files@);
    let mut r: Vec<String> = Vec::new();
    let nf = files.len();
    for fi in 0..nf
        invariant
            nf == files@.len(),
            fv == files_view(files@),
            forall|i: int, j: int|
                0 <= i < j < r@.len() ==> strings_view(r@)[i] != strings_view(r@)[j],
            forall|i: int| 0 <= i < r@.len() ==> appears(fv, strings_view(r@)[i]),
            forall|f: int, e: int|
                0 <= f < fi && 0 <= e < (#[trigger] fv[f]).entries.len() ==> spec_contains_str(
                    strings_view(r@),
                    (#[trigger] fv[f].entries[e]).identity,
                ),
    {
        let ne = files[fi].entries.len();
        for ei in 0..ne
            invariant
                nf == files@.len(),
                fi < nf,
                ne == files@[fi as int].entries@.len(),
                fv == files_view(files@),
                forall|i: int, j: int|
                    0 <= i < j < r@.len() ==> strings_view(r@)[i] != strings_view(r@)[j],
                forall|i: int| 0 <= i < r@.len() ==> appears(fv, strings_view(r@)[i]),
                forall|f: int, e: int|
                    0 <= f < fi && 0 <= e < (#[trigger] fv[f]).entries.len()
                        ==> spec_contains_str(
                        strings_view(r@),
                        (#[trigger] fv[f].entries[e]).identity,
                    ),
                forall|e: int|
                    0 <= e < ei ==> spec_contains_str(
                        strings_view(r@),
                        (#[trigger] fv[fi as int].entries[e]).identity,
                    ),
        {
            let id = &files[fi].entries[ei].identity;
            assert(id@ == fv[fi as int].entries[ei as int].identity);
            if !contains_str(&r, id.as_str()) {
                let ghost r0 = strings_view(r@);
                r.push(id.clone());
                proof {
                    assert(strings_view(r@) =~= r0.push(id@));
                    assert(appears(fv, id@)) by {
                        assert(0 <= ei < fv[fi as int].entries.len());
                        assert(fv[fi as int].entries[ei as int].identity == id@);
                    }
                    assert forall|x: Seq<char>| spec_contains_str(r0, x) implies spec_contains_str(
                        strings_view(r@),
                        x,
                    ) by {
                        let k = choose|k: int| 0 <= k < r0.len() && r0[k] == x;
                        assert(strings_view(r@)[k] == x);
                    }
                    assert(spec_contains_str(strings_view(r@), id@)) by {
                        assert(strings_view(r@)[r0.len() as int] == id@);
                    }
                }
            }
        }
    }
    r
}

impl RosterStore {
    /// Processes one document and stores its result under the label.
    ///
    /// A document that decodes, has a locatable table and yields at least
    /// one non-ignored entry is stored: a known label's result is replaced
    /// in place, a new label is appended to the file order. The returned
    /// warnings are the skipped rows, plus one degenerate-maximum warning
    /// when the qualifying maximum is zero. A rejected document changes
    /// nothing, and the error says why: `Encoding` for bytes that are not
    /// UTF-8, `Structure` when no table is found or it has no rows,
    /// `Parse` when a row's score cell has no usable number, and
    /// `EmptyResult` when no usable or no non-ignored row remains.
    #[verifier::loop_isolation(false)]
    pub fn add_file(&mut self, label: String, bytes: Vec<u8>) -> (r: Result<
        Vec<Warning>,
        RosterError,
    >)
        requires
            old(self).wf(),
            old(self).files@.len() < MAX_FILES,
            label@.len() > 0,
        ensures
            final(self).wf(),
            final(self).config == old(self).config,
            final(self).precision == old(self).precision,
            match r {
                Ok(ws) => match spec_process(label@, bytes@, old(self).config@) {
                    Ok((fr, ws_s)) => ws@ == ws_s && files_view(final(self).files@) == spec_add(
                        files_view(old(self).files@),
                        fr,
                    ),
                    Err(_) => false,
                },
                Err(e) => spec_process(label@, bytes@, old(self).config@) == Err::<
                    (FileResultV, Seq<Warning>),
                    RosterError,
                >(e) && *final(self) == *old(self),
            },
    {
        let text = match decode_utf8_bytes(bytes) {
            Some(t) => t,
            None => {
                return Err(RosterError::Encoding);
            },
        };
        let dom = parse_document(text.as_str());
        let (raws, mut ws) = match extract_rows(&dom, self.config.locator) {
            Ok(p) => p,
            Err(e) => {
                return Err(e);
            },
        };
        proof {
            lemma_extract_bounds(dom_view(dom@), self.config@.locator);
        }
        let ghost rseq = entries_view(raws@);
        let ghost canon_v = self.config@.canon;
        let ghost ignore_v = self.config@.ignore;
        let mut people: Vec<PersonEntry> = Vec::new();
        let nr = raws.len();
        assert(rseq.take(0) =~= Seq::<RawEntryV>::empty());
        for idx in 0..nr
            invariant
                nr == raws@.len(),
                people_view(people@) == pipeline_people(rseq.take(idx as int), canon_v, ignore_v),
                forall|e: int|
                    0 <= e < people_view(people@).len() ==> abs_int(
                        #[trigger] people_view(people@)[e].raw,
                    ) <= MAX_ABS_MICROS,
        {
            let ident = canonicalize(raws[idx].name.as_str(), &self.config.canon);
            let low = to_lower(ident.as_str());
            proof {
                assert(rseq.take(idx + 1).drop_last() =~= rseq.take(idx as int));
                assert(rseq.take(idx + 1).last() == rseq[idx as int]);
                assert(rseq[idx as int] == raws@[idx as int]@);
            }
            if !contains_str(&self.config.ignore, low.as_str()) {
                let ghost p0 = people_view(people@);
                let raw_micros = raws[idx].micros;
                people.push(PersonEntry { identity: ident, raw_micros });
                assert(people_view(people@) =~= p0.push(canon_entry(rseq[idx as int], canon_v)));
            }
        }
        assert(rseq.take(nr as int) =~= rseq);
        if people.len() == 0 {
            return Err(RosterError::EmptyResult);
        }
        let ghost pv = people_view(people@);
        let mut qm: i64 = people[0].raw_micros;
        assert(pv.take(1).len() == 1 && pv.take(1)[0] == pv[0]);
        assert(qm == qmax_spec(pv.take(1)));
        let np = people.len();
        let mut i: usize = 1;
        while i < np
            invariant
                1 <= i <= np,
                qm == qmax_spec(pv.take(i as int)),
                abs_int(qm as int) <= MAX_ABS_MICROS,
            decreases np - i,
        {
            proof {
                assert(pv.take(i + 1).drop_last() =~= pv.take(i as int));
                assert(pv.take(i + 1).last() == pv[i as int]);
                assert(abs_int(pv[i as int].raw) <= MAX_ABS_MICROS);
                assert(pv[i as int].raw == people@[i as int].raw_micros as int);
            }
            if people[i].raw_micros > qm {
                qm = people[i].raw_micros;
            }
            i += 1;
        }
        assert(pv.take(np as int) =~= pv);
        if qm == 0 {
            ws.push(Warning::DegenerateMax);
        }
        let ghost frv = FileResultV { label: label@, entries: pv, qmax: qm as int };
        let fr = FileResult { label, entries: people, qualifying_max: qm };
        assert(fr@ == frv);
        assert(file_wf(frv)) by {
            lemma_qmax_is_max(pv);
        }
        let ghost fv0 = files_view(self.files@);
        proof {
            lemma_find_label_props(fv0, 0, frv.label);
        }
        match find_label_exec(&self.files, fr.label.as_str()) {
            Some(j) => {
                self.files.remove(j);
                self.files.insert(j, fr);
                assert(files_view(self.files@) =~= fv0.update(j as int, frv));
                assert(forall|k: int|
                    0 <= k < fv0.len() ==> (#[trigger] files_view(self.files@)[k]).label
                        == fv0[k].label);
            },
            None => {
                self.files.push(fr);
                assert(files_view(self.files@) =~= fv0.push(frv));
            },
        }
        self.identities = recompute_identities(&self.files);
        Ok(ws)
    }
}

/// The cross-file average standardized score of an identity, in
/// micro-units.
#[verifier::loop_isolation(false)]
fn avg_for(files: &Vec<FileResult>, id: &str) -> (r: i128)
    requires
        files@.len() <= MAX_FILES,
        forall|f: int|
            0 <= f < files_view(files@).len() ==> file_wf(#[trigger] files_view(files@)[f]),
    ensures
        r as int == avg_spec(files_view(files@), id@),
{
    let ghost fv = files_view(files@);
    let mut sum: i128 = 0;
    let mut cnt: usize = 0;
    let n = files.len();
    assert(fv.take(0) =~= Seq::<FileResultV>::empty());
    for j in 0..n
        invariant
            n == files@.len(),
            cnt == scores_of(fv.take(j as int), id@).len(),
            sum == sum_seq(scores_of(fv.take(j as int), id@)),
            cnt <= j,
            -(j * MAX_ABS_STD) <= sum <= j * MAX_ABS_STD,
    {
        proof {
            assert(fv.take(j + 1).drop_last() =~= fv.take(j as int));
            assert(fv.take(j + 1).last() == fv[j as int]);
        }
        match find_entry_exec(&files[j].entries, id) {
            Some(e) => {
                assert(file_wf(fv[j as int]));
                assert(people_view(files@[j as int].entries@) == fv[j as int].entries);
                assert(fv[j as int].entries[e as int].raw == files@[j as int].entries@[e as int].raw_micros
                    as int);
                assert(abs_int(fv[j as int].entries[e as int].raw) <= MAX_ABS_MICROS);
                let s = std_micros_exec(files[j].entries[e].raw_micros, files[j].qualifying_max);
                proof {
                    let sc0 = scores_of(fv.take(j as int), id@);
                    let sc1 = scores_of(fv.take(j + 1), id@);
                    assert(sc1 == sc0.push(s as int));
                    assert(sc1.drop_last() =~= sc0);
                    assert(sum_seq(sc1) == sum_seq(sc0) + s);
                    assert((j + 1) * MAX_ABS_STD == j * MAX_ABS_STD + MAX_ABS_STD);
                }
                sum = sum + s;
                cnt = cnt + 1;
            },
            None => {
                assert((j + 1) * MAX_ABS_STD == j * MAX_ABS_STD + MAX_ABS_STD);
            },
        }
    }
    assert(fv.take(n as int) =~= fv);
    if cnt == 0 {
        0
    } else {
        div_trunc_i128(sum, cnt as i128)
    }
}

/// Whether `a` ranks no lower than `b`.
fn rank_before(a: &RankEntry, b: &RankEntry) -> (r: bool)
    ensures
        r == rank_leq(a@, b@),
{
    if a.avg_std_micros > b.avg_std_micros {
        true
    } else if a.avg_std_micros == b.avg_std_micros {
        str_lt(a.identity.as_str(), b.identity.as_str()) || str_eq(
            a.identity.as_str(),
            b.identity.as_str(),
        )
    } else {
        false
    }
}

/// Sorts ranking lines by the ranking order (selection sort).
#[verifier::loop_isolation(false)]
fn sort_ranked(input: Vec<RankEntry>) -> (out: Vec<RankEntry>)
    ensures
        ranking_sorted(rank_view(out@)),
        rank_view(out@).to_multiset() == rank_view(input@).to_multiset(),
{
    let ghost orig = rank_view(input@).to_multiset();
    let mut src = input;
    let mut out: Vec<RankEntry> = Vec::new();
    proof {
        assert(rank_view(out@) =~= Seq::<RankEntryV>::empty());
        rank_view(out@).to_multiset_ensures();
        assert(rank_view(out@).to_multiset().add(rank_view(src@).to_multiset()) =~= orig);
    }
    while src.len() > 0
        invariant
            rank_view(out@).to_multiset().add(rank_view(src@).to_multiset()) == orig,
            ranking_sorted(rank_view(out@)),
            forall|i: int, j: int|
                0 <= i < out@.len() && 0 <= j < src@.len() ==> rank_leq(
                    #[trigger] rank_view(out@)[i],
                    #[trigger] rank_view(src@)[j],
                ),
        decreases src@.len(),
    {
        let n = src.len();
        let mut mi: usize = 0;
        let mut k: usize = 1;
        while k < n
            invariant
                mi < k <= n,
                n == src@.len(),
                forall|t: int| 0 <= t < k ==> rank_leq(rank_view(src@)[mi as int], #[trigger] rank_view(src@)[t]),
            decreases n - k,
        {
            if rank_before(&src[k], &src[mi]) {
                proof {
                    assert forall|t: int|
                        0 <= t < k + 1 implies rank_leq(
                        rank_view(src@)[k as int],
                        #[trigger] rank_view(src@)[t],
                    ) by {
                        if t < k {
                            lemma_rank_trans(
                                rank_view(src@)[k as int],
                                rank_view(src@)[mi as int],
                                rank_view(src@)[t],
                            );
                        }
                    }
                }
                mi = k;
            } else {
                proof {
                    lemma_rank_total(rank_view(src@)[mi as int], rank_view(src@)[k as int]);
                }
            }
            k += 1;
        }
        let ghost src_v0 = rank_view(src@);
        let ghost out_v0 = rank_view(out@);
        let x = src.remove(mi);
        out.push(x);
        proof {
            let xv = src_v0[mi as int];
            assert(rank_view(src@) =~= src_v0.remove(mi as int));
            assert(rank_view(out@) =~= out_v0.push(xv));
            src_v0.to_multiset_ensures();
            out_v0.to_multiset_ensures();
            assert(src_v0.to_multiset().count(xv) > 0);
            assert(rank_view(src@).to_multiset() =~= src_v0.to_multiset().remove(xv));
            assert(rank_view(out@).to_multiset() =~= out_v0.to_multiset().insert(xv));
            assert(rank_view(out@).to_multiset().add(rank_view(src@).to_multiset()) =~= out_v0
                .to_multiset().add(src_v0.to_multiset()));
            assert forall|i: int, j: int|
                0 <= i < out@.len() && 0 <= j < src@.len() implies rank_leq(
                #[trigger] rank_view(out@)[i],
                #[trigger] rank_view(src@)[j],
            ) by {
                let sj = rank_view(src@)[j];
                assert(sj == src_v0[if j < mi {
                    j
                } else {
                    j + 1
                }]);
                if i < out_v0.len() {
                    assert(rank_view(out@)[i] == out_v0[i]);
                } else {
                    assert(rank_view(out@)[i] == xv);
                }
            }
            assert(ranking_sorted(rank_view(out@))) by {
                assert forall|i: int, j: int|
                    0 <= i < j < rank_view(out@).len() implies rank_leq(
                    #[trigger] rank_view(out@)[i],
                    #[trigger] rank_view(out@)[j],
                ) by {
                    if j < out_v0.len() {
                        assert(rank_view(out@)[i] == out_v0[i] && rank_view(out@)[j] == out_v0[j]);
                    } else {
                        assert(rank_view(out@)[j] == xv && rank_view(out@)[i] == out_v0[i]);
                    }
                }
            }
        }
    }
    proof {
        assert(rank_view(src@) =~= Seq::<RankEntryV>::empty());
        rank_view(src@).to_multiset_ensures();
        assert(rank_view(out@).to_multiset().add(Multiset::<RankEntryV>::empty()) =~= rank_view(
            out@,
        ).to_multiset());
    }
    out
}

impl RosterStore {
    /// The ranked cross-file summary: one line per identity, holding its
    /// average standardized score in micro-units, sorted by average
    /// descending; ties are broken by the identity ascending, so the
    /// order is reproducible.
    pub fn rankings(&self) -> (r: Vec<RankEntry>)
        requires
            self.wf(),
        ensures
            ranking_sorted(rank_view(r@)),
            rank_view(r@).to_multiset() == strings_view(self.identities@).map_values(
                |id: Seq<char>| rank_line(files_view(self.files@), id),
            ).to_multiset(),
    {
        let ghost fv = files_view(self.files@);
        let ghost expected = strings_view(self.identities@).map_values(
            |id: Seq<char>| rank_line(fv, id),
        );
        let mut un: Vec<RankEntry> = Vec::new();
        let n = self.identities.len();
        for i in 0..n
            invariant
                n == self.identities@.len(),
                self.wf(),
                fv == files_view(self.files@),
                expected == strings_view(self.identities@).map_values(
                    |id: Seq<char>| rank_line(fv, id),
                ),
                un@.len() == i,
                forall|k: int| 0 <= k < i ==> #[trigger] un@[k]@ == expected[k],
        {
            let avg = avg_for(&self.files, self.identities[i].as_str());
            un.push(RankEntry { identity: self.identities[i].clone(), avg_std_micros: avg });
        }
        assert(rank_view(un@) =~= expected);
        sort_ranked(un)
    }
}

impl RosterStore {
    /// The `(standardized score, raw score)` pair of an identity in the
    /// file with this label, in micro-units, or `None` where the label is
    /// unknown or the identity has no data in that file — which a caller
    /// can tell apart from a real score of zero.
    pub fn std_raw_for(&self, label: &str, identity: &str) -> (r: Option<(i128, i64)>)
        requires
            self.wf(),
        ensures
            match r {
                Some(p) => lookup_std(files_view(self.files@), label@, identity@) == Some(
                    (p.0 as int, p.1 as int),
                ),
                None => lookup_std(files_view(self.files@), label@, identity@) is None,
            },
    {
        let ghost fv = files_view(self.files@);
        let f = match find_label_exec(&self.files, label) {
            Some(f) => f,
            None => {
                return None;
            },
        };
        let fr = &self.files[f];
        let e = match find_entry_exec(&fr.entries, identity) {
            Some(e) => e,
            None => {
                return None;
            },
        };
        assert(file_wf(fv[f as int]));
        let raw = fr.entries[e].raw_micros;
        assert(fv[f as int].entries[e as int].raw == raw as int);
        let s = std_micros_exec(raw, fr.qualifying_max);
        Some((s, raw))
    }
}

} // verus!
