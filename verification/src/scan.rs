//! The source scanner: it parses discovered file entries into source records
//! (category / name / variant / size) and reduces each icon key to the single
//! record with the largest size.
//!
//! The canonical layout is the nested one: `category/name/variant/<size>px.<ext>`,
//! where the variant directory is `materialicons<variant>` and an empty
//! variant suffix stands for the `normal` variant. A file whose name does not
//! match `<digits>px.svg` is skipped and reported, not fatal; an unreadable
//! variant directory name is fatal, as is a duplicate record with an equal
//! size for one key (a strictly larger size silently wins).
use vstd::prelude::*;

use crate::text::chars_of;
use crate::text::string_from_chars;

verus! {

/// Identity of one logical icon across all its discovered sizes.
pub struct IconKey {
    pub category: String,
    pub name: String,
    pub variant: String,
}

/// Mathematical model of an icon key.
pub ghost struct GKey {
    pub category: Seq<char>,
    pub name: Seq<char>,
    pub variant: Seq<char>,
}

impl View for IconKey {
    type V = GKey;

    open spec fn view(&self) -> GKey {
        GKey { category: self.category@, name: self.name@, variant: self.variant@ }
    }
}

/// Whether two keys denote the same icon.
pub fn key_eq(a: &IconKey, b: &IconKey) -> (r: bool)
    ensures
        r == (a@ == b@),
{
    a.category == b.category && a.name == b.name && a.variant == b.variant
}

/// One discovered icon source file.
pub struct SourceRecord {
    pub key: IconKey,
    /// Nominal size parsed from the file name.
    pub size: u32,
    /// The file's path, carried through so the caller can read the chosen
    /// files; the scanner never interprets it.
    pub path: String,
}

/// Mathematical model of a source record.
pub ghost struct GRecord {
    pub key: GKey,
    pub size: int,
    pub path: Seq<char>,
}

impl View for SourceRecord {
    type V = GRecord;

    open spec fn view(&self) -> GRecord {
        GRecord { key: self.key@, size: self.size as int, path: self.path@ }
    }
}

/// The view of a record list.
pub open spec fn records_view(s: Seq<SourceRecord>) -> Seq<GRecord> {
    s.map_values(|r: SourceRecord| r@)
}

/// One raw directory entry handed in by the caller, before any parsing.
pub struct RawEntry {
    pub category: String,
    pub name: String,
    /// The variant directory's name, e.g. `materialiconsoutlined`.
    pub variant_dir: String,
    /// The file's name, e.g. `24px.svg`.
    pub file_name: String,
    pub path: String,
}

/// Mathematical model of a raw entry.
pub ghost struct GEntry {
    pub category: Seq<char>,
    pub name: Seq<char>,
    pub variant_dir: Seq<char>,
    pub file_name: Seq<char>,
    pub path: Seq<char>,
}

impl View for RawEntry {
    type V = GEntry;

    open spec fn view(&self) -> GEntry {
        GEntry {
            category: self.category@,
            name: self.name@,
            variant_dir: self.variant_dir@,
            file_name: self.file_name@,
            path: self.path@,
        }
    }
}

/// Why scanning failed. Either aborts the whole build.
#[derive(Debug)]
pub enum ScanError {
    /// A variant directory name without the expected prefix; the payload is
    /// the offending file's path.
    VariantFormat(String),
    /// Two records with the same key and the same size; the payload is the
    /// later file's path.
    DuplicateRecord(String),
}

/// Mathematical model of a scan failure.
pub ghost enum GScanError {
    VariantFormat(Seq<char>),
    DuplicateRecord(Seq<char>),
}

impl View for ScanError {
    type V = GScanError;

    open spec fn view(&self) -> GScanError {
        match self {
            ScanError::VariantFormat(p) => GScanError::VariantFormat(p@),
            ScanError::DuplicateRecord(p) => GScanError::DuplicateRecord(p@),
        }
    }
}

/// Whether a character is a decimal digit.
pub open spec fn is_ascii_digit(c: char) -> bool {
    48 <= c as u32 <= 57
}

/// The numeric value of a digit character.
pub open spec fn digit_val(c: char) -> int {
    c as u32 - 48
}

/// The numeric value of a digit string, most significant digit first.
pub open spec fn digits_val(s: Seq<char>) -> int
    decreases s.len(),
{
    if s.len() == 0 {
        0
    } else {
        digits_val(s.drop_last()) * 10 + digit_val(s.last())
    }
}

/// Whether every character is a decimal digit.
pub open spec fn all_digits(s: Seq<char>) -> bool {
    forall|i: int| 0 <= i < s.len() ==> is_ascii_digit(#[trigger] s[i])
}

/// The size encoded in an icon file name: the name must be one or more
/// digits followed by exactly `px.svg`, and the value must fit a `u32`;
/// everything else is `None` (skipped by the scanner).
pub open spec fn filename_size_spec(s: Seq<char>) -> Option<int> {
    let digits = s.subrange(0, s.len() - 6);
    if s.len() >= 7 && s.subrange(s.len() - 6, s.len() as int) == "px.svg"@ && all_digits(digits)
        && digits_val(digits) <= u32::MAX {
        Some(digits_val(digits))
    } else {
        None
    }
}

/// The value of a digit string is never negative.
proof fn lemma_digits_val_nonneg(s: Seq<char>)
    requires
        all_digits(s),
    ensures
        digits_val(s) >= 0,
    decreases s.len(),
{
    if s.len() > 0 {
        assert(all_digits(s.drop_last())) by {
            assert(forall|i: int|
                0 <= i < s.len() - 1 ==> is_ascii_digit(#[trigger] s.drop_last()[i]));
        }
        lemma_digits_val_nonneg(s.drop_last());
    }
}

/// Extending a digit string multiplies its value by ten and adds the digit.
proof fn lemma_digits_val_step(s: Seq<char>, i: int)
    requires
        0 <= i < s.len(),
    ensures
        digits_val(s.subrange(0, i + 1)) == digits_val(s.subrange(0, i)) * 10 + digit_val(s[i]),
{
    assert(s.subrange(0, i + 1).drop_last() =~= s.subrange(0, i));
    assert(s.subrange(0, i + 1).last() == s[i]);
}

/// Parses `<digits>px.svg` into the icon's nominal size.
pub fn parse_file_name(file_name: &String) -> (r: Option<u32>)
    ensures
        match r {
            Some(v) => filename_size_spec(file_name@) == Some(v as int),
            None => filename_size_spec(file_name@) is None,
        },
{
    proof {
        reveal_strlit("px.svg");
    }
    let cs = chars_of(file_name.as_str());
    let sfx = chars_of("px.svg");
    let n = cs.len();
    if n < 7 {
        return None;
    }
    // The name must end in the fixed suffix.
    let mut j: usize = 0;
    while j < 6
        invariant
            0 <= j <= 6,
            n == cs.len(),
            n >= 7,
            cs@ == file_name@,
            sfx@ == "px.svg"@,
            sfx@.len() == 6,
            forall|m: int| 0 <= m < j ==> cs@[n - 6 + m] == sfx@[m],
        decreases 6 - j,
    {
        if cs[n - 6 + j] != sfx[j] {
            proof {
                assert(cs@.subrange(n - 6, n as int)[j as int] == cs@[n - 6 + j as int]);
            }
            return None;
        }
        j = j + 1;
    }
    proof {
        assert(cs@.subrange(n - 6, n as int) =~= "px.svg"@);
    }
    // The rest must be digits whose value fits.
    let ghost digits = cs@.subrange(0, n - 6);
    let mut i: usize = 0;
    let mut acc: u64 = 0;
    let mut too_big: bool = false;
    proof {
        assert(digits.subrange(0, 0) =~= Seq::<char>::empty());
    }
    while i < n - 6
        invariant
            0 <= i <= n - 6,
            n == cs.len(),
            n >= 7,
            cs@ == file_name@,
            digits == cs@.subrange(0, n - 6),
            all_digits(digits.subrange(0, i as int)),
            !too_big ==> acc as int == digits_val(digits.subrange(0, i as int)) && acc
                <= u32::MAX,
            too_big ==> digits_val(digits.subrange(0, i as int)) > u32::MAX,
        decreases n - 6 - i,
    {
        let c = cs[i];
        let v = c as u32;
        proof {
            assert(digits[i as int] == cs@[i as int]);
        }
        if v < 48 || v > 57 {
            proof {
                assert(!is_ascii_digit(digits[i as int]));
            }
            return None;
        }
        proof {
            lemma_digits_val_step(digits, i as int);
            assert(all_digits(digits.subrange(0, i + 1))) by {
                assert(forall|m: int|
                    0 <= m < i + 1 ==> digits.subrange(0, i + 1)[m] == digits[m]);
            }
        }
        if !too_big {
            let next: u64 = acc * 10 + ((v - 48) as u64);
            if next > 4294967295 {
                too_big = true;
            } else {
                acc = next;
            }
        } else {
            proof {
                lemma_digits_val_nonneg(digits.subrange(0, i as int));
            }
        }
        i = i + 1;
    }
    proof {
        assert(digits.subrange(0, (n - 6) as int) =~= digits);
    }
    if too_big {
        None
    } else {
        Some(acc as u32)
    }
}

/// The canonical variant named by a variant directory: the directory must be
/// `materialicons<variant>`, and an empty `<variant>` stands for `normal`.
pub open spec fn variant_spec(s: Seq<char>) -> Option<Seq<char>> {
    if s.len() >= 13 && s.subrange(0, 13) == "materialicons"@ {
        if s.len() == 13 {
            Some("normal"@)
        } else {
            Some(s.subrange(13, s.len() as int))
        }
    } else {
        None
    }
}

/// Parses a variant directory name into the canonical variant name.
pub fn parse_variant_dir(dir: &String) -> (r: Option<String>)
    ensures
        match r {
            Some(v) => variant_spec(dir@) == Some(v@),
            None => variant_spec(dir@) is None,
        },
{
    proof {
        reveal_strlit("materialicons");
    }
    let cs = chars_of(dir.as_str());
    let pre = chars_of("materialicons");
    let n = cs.len();
    if n < 13 {
        return None;
    }
    let mut j: usize = 0;
    while j < 13
        invariant
            0 <= j <= 13,
            n == cs.len(),
            n >= 13,
            cs@ == dir@,
            pre@ == "materialicons"@,
            pre@.len() == 13,
            forall|m: int| 0 <= m < j ==> cs@[m] == pre@[m],
        decreases 13 - j,
    {
        if cs[j] != pre[j] {
            proof {
                assert(cs@.subrange(0, 13)[j as int] == cs@[j as int]);
            }
            return None;
        }
        j = j + 1;
    }
    proof {
        assert(cs@.subrange(0, 13) =~= "materialicons"@);
    }
    if n == 13 {
        Some("normal".to_owned())
    } else {
        let mut rest: Vec<char> = Vec::new();
        let mut i: usize = 13;
        while i < n
            invariant
                13 <= i <= n,
                n == cs.len(),
                cs@ == dir@,
                rest@ == cs@.subrange(13, i as int),
            decreases n - i,
        {
            rest.push(cs[i]);
            i = i + 1;
            proof {
                assert(rest@ =~= cs@.subrange(13, i as int));
            }
        }
        Some(string_from_chars(&rest))
    }
}

/// The view of an entry list.
pub open spec fn entries_view(s: Seq<RawEntry>) -> Seq<GEntry> {
    s.map_values(|e: RawEntry| e@)
}

/// What scanning a list of raw entries yields: the records of all entries
/// whose file name parses, in input order, and the paths of the skipped
/// entries; or the first unreadable variant directory.
pub open spec fn scan_spec(es: Seq<GEntry>) -> Result<(Seq<GRecord>, Seq<Seq<char>>), GScanError>
    decreases es.len(),
{
    if es.len() == 0 {
        Ok((Seq::<GRecord>::empty(), Seq::<Seq<char>>::empty()))
    } else {
        let e = es[0];
        match variant_spec(e.variant_dir) {
            None => Err(GScanError::VariantFormat(e.path)),
            Some(v) => {
                let rest = scan_spec(es.subrange(1, es.len() as int));
                match filename_size_spec(e.file_name) {
                    None => match rest {
                        Err(er) => Err(er),
                        Ok(p) => Ok((p.0, seq![e.path] + p.1)),
                    },
                    Some(sz) => match rest {
                        Err(er) => Err(er),
                        Ok(p) => Ok(
                            (
                                seq![
                                    GRecord {
                                        key: GKey {
                                            category: e.category,
                                            name: e.name,
                                            variant: v,
                                        },
                                        size: sz,
                                        path: e.path,
                                    },
                                ] + p.0,
                                p.1,
                            ),
                        ),
                    },
                }
            },
        }
    }
}

/// The outcome of a scan: the parsed records, in input order, and the paths
/// of the files that were skipped with a warning.
pub struct ScanOutcome {
    pub records: Vec<SourceRecord>,
    pub skipped: Vec<String>,
}

/// The view of a skipped-path list.
pub open spec fn paths_view(s: Seq<String>) -> Seq<Seq<char>> {
    s.map_values(|p: String| p@)
}

/// Parses every raw entry, collecting records and skipped paths.
pub fn scan_entries(entries: &Vec<RawEntry>) -> (r: Result<ScanOutcome, ScanError>)
    ensures
        match r {
            Ok(out) => scan_spec(entries_view(entries@)) == Ok::<
                (Seq<GRecord>, Seq<Seq<char>>),
                GScanError,
            >((records_view(out.records@), paths_view(out.skipped@))),
            Err(e) => scan_spec(entries_view(entries@)) == Err::<
                (Seq<GRecord>, Seq<Seq<char>>),
                GScanError,
            >(e@),
        },
{
    let ghost all = entries_view(entries@);
    let mut records: Vec<SourceRecord> = Vec::new();
    let mut skipped: Vec<String> = Vec::new();
    let mut i: usize = 0;
    proof {
        assert(all.subrange(0, all.len() as int) =~= all);
    }
    while i < entries.len()
        invariant
            0 <= i <= entries.len(),
            all == entries_view(entries@),
            scan_spec(all) == match scan_spec(all.subrange(i as int, all.len() as int)) {
                Err(er) => Err::<(Seq<GRecord>, Seq<Seq<char>>), GScanError>(er),
                Ok(p) => Ok::<(Seq<GRecord>, Seq<Seq<char>>), GScanError>(
                    (records_view(records@) + p.0, paths_view(skipped@) + p.1),
                ),
            },
        decreases entries.len() - i,
    {
        let ghost head = all.subrange(i as int, all.len() as int);
        let ghost tail = all.subrange(i as int + 1, all.len() as int);
        proof {
            assert(head[0] == all[i as int]);
            assert(head.subrange(1, head.len() as int) =~= tail);
        }
        let e = &entries[i];
        match parse_variant_dir(&e.variant_dir) {
            None => {
                return Err(ScanError::VariantFormat(e.path.clone()));
            },
            Some(variant) => {
                match parse_file_name(&e.file_name) {
                    None => {
                        let ghost pre = paths_view(skipped@);
                        skipped.push(e.path.clone());
                        proof {
                            assert(paths_view(skipped@) =~= pre + seq![all[i as int].path]);
                            match scan_spec(tail) {
                                Ok(p) => {
                                    assert((pre + seq![all[i as int].path]) + p.1 =~= pre + (
                                    seq![all[i as int].path] + p.1));
                                },
                                Err(_) => {},
                            }
                        }
                        i = i + 1;
                    },
                    Some(size) => {
                        let ghost pre = records_view(records@);
                        let rec = SourceRecord {
                            key: IconKey {
                                category: e.category.clone(),
                                name: e.name.clone(),
                                variant,
                            },
                            size,
                            path: e.path.clone(),
                        };
                        let ghost grec = rec@;
                        records.push(rec);
                        proof {
                            assert(records_view(records@) =~= pre + seq![grec]);
                            match scan_spec(tail) {
                                Ok(p) => {
                                    assert((pre + seq![grec]) + p.0 =~= pre + (seq![grec]
                                        + p.0));
                                },
                                Err(_) => {},
                            }
                        }
                        i = i + 1;
                    },
                }
            },
        }
    }
    proof {
        assert(all.subrange(all.len() as int, all.len() as int) =~= Seq::<GEntry>::empty());
        assert(records_view(records@) + Seq::<GRecord>::empty() =~= records_view(records@));
        assert(paths_view(skipped@) + Seq::<Seq<char>>::empty() =~= paths_view(skipped@));
    }
    Ok(ScanOutcome { records, skipped })
}

/// The first index whose record has the given key, or `-1`.
pub open spec fn find_key(s: Seq<GRecord>, k: GKey) -> int
    decreases s.len(),
{
    if s.len() == 0 {
        -1
    } else if s[0].key == k {
        0
    } else {
        let r = find_key(s.subrange(1, s.len() as int), k);
        if r < 0 {
            -1
        } else {
            1 + r
        }
    }
}

proof fn lemma_find_key_none(s: Seq<GRecord>, k: GKey)
    requires
        forall|m: int| 0 <= m < s.len() ==> (#[trigger] s[m]).key != k,
    ensures
        find_key(s, k) == -1,
    decreases s.len(),
{
    if s.len() > 0 {
        lemma_find_key_none(s.subrange(1, s.len() as int), k);
    }
}

proof fn lemma_find_key_at(s: Seq<GRecord>, k: GKey, j: int)
    requires
        0 <= j < s.len(),
        s[j].key == k,
        forall|m: int| 0 <= m < j ==> (#[trigger] s[m]).key != k,
    ensures
        find_key(s, k) == j,
    decreases j,
{
    if j > 0 {
        lemma_find_key_at(s.subrange(1, s.len() as int), k, j - 1);
    }
}

/// One record folded into the chosen set: a new key is added, a strictly
/// larger size replaces the earlier record in place, a smaller one is
/// dropped, and an equal size is a fatal duplicate.
pub open spec fn dedup_step(acc: Seq<GRecord>, r: GRecord) -> Result<Seq<GRecord>, GScanError> {
    let j = find_key(acc, r.key);
    if j < 0 {
        Ok(acc.push(r))
    } else if acc[j].size < r.size {
        Ok(acc.update(j, r))
    } else if acc[j].size == r.size {
        Err(GScanError::DuplicateRecord(r.path))
    } else {
        Ok(acc)
    }
}

/// All records folded left to right into the chosen set.
pub open spec fn dedup_fold(acc: Seq<GRecord>, rs: Seq<GRecord>) -> Result<
    Seq<GRecord>,
    GScanError,
>
    decreases rs.len(),
{
    if rs.len() == 0 {
        Ok(acc)
    } else {
        match dedup_step(acc, rs[0]) {
            Err(e) => Err(e),
            Ok(a2) => dedup_fold(a2, rs.subrange(1, rs.len() as int)),
        }
    }
}

/// The single chosen record per icon key: the one with the largest size.
pub open spec fn select_largest_spec(rs: Seq<GRecord>) -> Result<Seq<GRecord>, GScanError> {
    dedup_fold(Seq::<GRecord>::empty(), rs)
}

/// Whether no two records share a key.
pub open spec fn distinct_keys(s: Seq<GRecord>) -> bool {
    forall|i: int, j: int| 0 <= i < j < s.len() ==> (#[trigger] s[i]).key != (#[trigger] s[j]).key
}

proof fn lemma_find_key_sound(s: Seq<GRecord>, k: GKey)
    ensures
        find_key(s, k) >= 0 ==> 0 <= find_key(s, k) < s.len() && s[find_key(s, k)].key == k,
    decreases s.len(),
{
    if s.len() > 0 && s[0].key != k {
        lemma_find_key_sound(s.subrange(1, s.len() as int), k);
    }
}

/// Every record folded in is dominated by the chosen set: some entry of the
/// outcome carries its key with at least its size, and entries already chosen
/// are never shrunk.
proof fn lemma_fold_dominates(acc: Seq<GRecord>, rest: Seq<GRecord>, out: Seq<GRecord>)
    requires
        dedup_fold(acc, rest) == Ok::<Seq<GRecord>, GScanError>(out),
    ensures
        forall|k: int|
            0 <= k < rest.len() ==> exists|i: int|
                0 <= i < out.len() && (#[trigger] out[i]).key == (#[trigger] rest[k]).key
                    && out[i].size >= rest[k].size,
        forall|m: int|
            0 <= m < acc.len() ==> exists|i: int|
                0 <= i < out.len() && (#[trigger] out[i]).key == (#[trigger] acc[m]).key
                    && out[i].size >= acc[m].size,
    decreases rest.len(),
{
    if rest.len() == 0 {
        assert(out == acc);
        assert forall|m: int| 0 <= m < acc.len() implies exists|i: int|
            0 <= i < out.len() && (#[trigger] out[i]).key == (#[trigger] acc[m]).key
                && out[i].size >= acc[m].size by {
            assert(out[m].key == acc[m].key && out[m].size >= acc[m].size);
        }
    } else {
        let r = rest[0];
        let tail = rest.subrange(1, rest.len() as int);
        let j = find_key(acc, r.key);
        lemma_find_key_sound(acc, r.key);
        let a2 = if j < 0 {
            acc.push(r)
        } else if acc[j].size < r.size {
            acc.update(j, r)
        } else {
            acc
        };
        assert(dedup_fold(a2, tail) == Ok::<Seq<GRecord>, GScanError>(out));
        lemma_fold_dominates(a2, tail, out);
        // The head record is dominated by some entry of `a2`, hence of `out`.
        let w: int = if j < 0 {
            acc.len() as int
        } else {
            j
        };
        assert(0 <= w < a2.len() && a2[w].key == r.key && a2[w].size >= r.size);
        assert(exists|i: int|
            0 <= i < out.len() && (#[trigger] out[i]).key == a2[w].key && out[i].size
                >= a2[w].size);
        assert forall|k: int| 0 <= k < rest.len() implies exists|i: int|
            0 <= i < out.len() && (#[trigger] out[i]).key == (#[trigger] rest[k]).key
                && out[i].size >= rest[k].size by {
            if k == 0 {
                let i0 = choose|i: int|
                    0 <= i < out.len() && (#[trigger] out[i]).key == a2[w].key && out[i].size
                        >= a2[w].size;
                assert(out[i0].key == rest[0].key && out[i0].size >= rest[0].size);
            } else {
                assert(tail[k - 1] == rest[k]);
            }
        }
        // Every old entry keeps its key in `a2` with at least its size.
        assert forall|m: int| 0 <= m < acc.len() implies exists|i: int|
            0 <= i < out.len() && (#[trigger] out[i]).key == (#[trigger] acc[m]).key
                && out[i].size >= acc[m].size by {
            assert(0 <= m < a2.len() && a2[m].key == acc[m].key && a2[m].size >= acc[m].size);
        }
    }
}

/// The size-selection policy, as a law: every input record's key survives
/// into the chosen set, represented there with the largest size seen for
/// that key.
pub proof fn lemma_select_largest_is_max(rs: Seq<GRecord>, out: Seq<GRecord>)
    requires
        select_largest_spec(rs) == Ok::<Seq<GRecord>, GScanError>(out),
    ensures
        forall|k: int|
            0 <= k < rs.len() ==> exists|i: int|
                0 <= i < out.len() && (#[trigger] out[i]).key == (#[trigger] rs[k]).key
                    && out[i].size >= rs[k].size,
{
    lemma_fold_dominates(Seq::<GRecord>::empty(), rs, out);
}

/// The first record with the given key, if any.
fn find_by_key(acc: &Vec<SourceRecord>, k: &IconKey) -> (r: Option<usize>)
    ensures
        match r {
            Some(j) => j < acc.len() && records_view(acc@)[j as int].key == k@ && forall|m: int|
                0 <= m < j ==> (#[trigger] records_view(acc@)[m]).key != k@,
            None => forall|m: int|
                0 <= m < acc.len() ==> (#[trigger] records_view(acc@)[m]).key != k@,
        },
{
    let mut j: usize = 0;
    while j < acc.len()
        invariant
            0 <= j <= acc.len(),
            forall|m: int| 0 <= m < j ==> (#[trigger] records_view(acc@)[m]).key != k@,
        decreases acc.len() - j,
    {
        if key_eq(&acc[j].key, k) {
            return Some(j);
        }
        j = j + 1;
    }
    None
}

/// Reduces the records to one per icon key, keeping the largest size.
pub fn select_largest(records: Vec<SourceRecord>) -> (r: Result<Vec<SourceRecord>, ScanError>)
    ensures
        match r {
            Ok(out) => select_largest_spec(records_view(records@)) == Ok::<
                Seq<GRecord>,
                GScanError,
            >(records_view(out@)) && distinct_keys(records_view(out@)),
            Err(e) => select_largest_spec(records_view(records@)) == Err::<
                Seq<GRecord>,
                GScanError,
            >(e@),
        },
{
    let ghost all = records_view(records@);
    let mut rest = records;
    let mut acc: Vec<SourceRecord> = Vec::new();
    proof {
        assert(records_view(Seq::<SourceRecord>::empty()) =~= Seq::<GRecord>::empty());
    }
    while rest.len() > 0
        invariant
            all == records_view(records@),
            select_largest_spec(all) == dedup_fold(records_view(acc@), records_view(rest@)),
            distinct_keys(records_view(acc@)),
        decreases rest.len(),
    {
        let ghost racc = records_view(acc@);
        let ghost rrest = records_view(rest@);
        let r = rest.remove(0);
        let ghost grec = r@;
        proof {
            assert(rrest[0] == grec);
            assert(records_view(rest@) =~= rrest.subrange(1, rrest.len() as int));
        }
        match find_by_key(&acc, &r.key) {
            None => {
                proof {
                    lemma_find_key_none(racc, grec.key);
                }
                acc.push(r);
                proof {
                    assert(records_view(acc@) =~= racc.push(grec));
                }
            },
            Some(j) => {
                proof {
                    lemma_find_key_at(racc, grec.key, j as int);
                }
                if acc[j].size < r.size {
                    let _old = acc.remove(j);
                    acc.insert(j, r);
                    proof {
                        assert(records_view(acc@) =~= racc.update(j as int, grec));
                    }
                } else if acc[j].size == r.size {
                    return Err(ScanError::DuplicateRecord(r.path));
                } else {
                }
            },
        }
    }
    proof {
        assert(records_view(rest@) =~= Seq::<GRecord>::empty());
    }
    Ok(acc)
}

} // verus!
