//! The naming aggregator: walks a tree listing, keeps the regular files,
//! decomposes each path into extension bucket and base name, classifies
//! the base name and counts it under `(extension, style)`.

use vstd::prelude::*;
use crate::api::File;
use crate::classify::{classify, get_naming_style, Naming};
use crate::paths::{after_last, before_first, head_before_first, str_eq, tail_after_last};

verus! {

/// The file-name part of `path`: everything after the last `/`, or the
/// whole path when it has no `/`.
pub open spec fn filename_of(path: Seq<char>) -> Seq<char> {
    tail_after_last(path, '/')
}

/// The base name: the file name up to its first `.`; empty for file
/// names that start with a dot.
pub open spec fn base_of(path: Seq<char>) -> Seq<char> {
    head_before_first(filename_of(path), '.')
}

/// The extension bucket key: the file name's last `.`-separated segment,
/// which is the whole file name when it holds no dot.
pub open spec fn ext_of(path: Seq<char>) -> Seq<char> {
    tail_after_last(filename_of(path), '.')
}

/// An entry is counted only when it is a regular file (`blob`) and its
/// base name is non-empty.
pub open spec fn is_counted(f: File) -> bool {
    f.entry_type@ == "blob"@ && base_of(f.path@).len() > 0
}

/// The entry adds one to the cell at `(ext, style)`.
pub open spec fn contributes(f: File, ext: Seq<char>, style: Naming) -> bool {
    is_counted(f) && ext_of(f.path@) == ext && classify(base_of(f.path@)) == style
}

/// How many entries of `entries` add to the cell at `(ext, style)`.
pub open spec fn bucket_count(entries: Seq<File>, ext: Seq<char>, style: Naming) -> nat
    decreases entries.len(),
{
    if entries.len() == 0 {
        0
    } else {
        bucket_count(entries.drop_last(), ext, style) + if contributes(
            entries.last(),
            ext,
            style,
        ) {
            1nat
        } else {
            0nat
        }
    }
}

/// Some entry of `entries` is counted under bucket `ext`.
pub open spec fn ext_present(entries: Seq<File>, ext: Seq<char>) -> bool {
    exists|k: int|
        0 <= k < entries.len() && is_counted(#[trigger] entries[k]) && ext_of(entries[k].path@)
            == ext
}

/// No cell can count more entries than the list holds.
pub proof fn lemma_bucket_count_le_len(entries: Seq<File>, ext: Seq<char>, style: Naming)
    ensures
        bucket_count(entries, ext, style) <= entries.len(),
    decreases entries.len(),
{
    if entries.len() > 0 {
        lemma_bucket_count_le_len(entries.drop_last(), ext, style);
    }
}

/// An entry that is not counted — a non-blob, or one with an empty base
/// name — changes no cell and opens no bucket.
pub proof fn lemma_skipped_entry(entries: Seq<File>, f: File)
    requires
        !is_counted(f),
    ensures
        forall|ext: Seq<char>, style: Naming| #[trigger] bucket_count(entries.push(f), ext, style)
            == bucket_count(entries, ext, style),
        forall|ext: Seq<char>| #[trigger] ext_present(entries.push(f), ext) <==> ext_present(
            entries,
            ext,
        ),
{
    assert(entries.push(f).drop_last() =~= entries);
    assert forall|ext: Seq<char>| #[trigger] ext_present(entries.push(f), ext) <==> ext_present(
        entries,
        ext,
    ) by {
        if ext_present(entries.push(f), ext) {
            let k = choose|k: int|
                0 <= k < entries.push(f).len() && is_counted(#[trigger] entries.push(f)[k])
                    && ext_of(entries.push(f)[k].path@) == ext;
            assert(k < entries.len() && entries[k] == entries.push(f)[k]);
        }
        if ext_present(entries, ext) {
            let k = choose|k: int|
                0 <= k < entries.len() && is_counted(#[trigger] entries[k]) && ext_of(
                    entries[k].path@,
                ) == ext;
            assert(is_counted(entries.push(f)[k]));
        }
    }
}

/// Non-blob entries — directories and submodule references — never
/// change any count, whatever their path looks like.
pub proof fn lemma_non_blob_never_counted(entries: Seq<File>, f: File)
    requires
        f.entry_type@ != "blob"@,
    ensures
        forall|ext: Seq<char>, style: Naming| #[trigger] bucket_count(entries.push(f), ext, style)
            == bucket_count(entries, ext, style),
        forall|ext: Seq<char>| #[trigger] ext_present(entries.push(f), ext) <==> ext_present(
            entries,
            ext,
        ),
{
    lemma_skipped_entry(entries, f);
}

/// A blob whose base name is empty — a file name starting with a dot —
/// is skipped entirely and contributes to no bucket.
pub proof fn lemma_empty_base_name_skipped(entries: Seq<File>, f: File)
    requires
        base_of(f.path@).len() == 0,
    ensures
        forall|ext: Seq<char>, style: Naming| #[trigger] bucket_count(entries.push(f), ext, style)
            == bucket_count(entries, ext, style),
        forall|ext: Seq<char>| #[trigger] ext_present(entries.push(f), ext) <==> ext_present(
            entries,
            ext,
        ),
{
    lemma_skipped_entry(entries, f);
}

/// A counted entry adds exactly one, to the cell at its own extension
/// bucket and its base name's style, and to no other cell.
pub proof fn lemma_counted_entry_adds_one(entries: Seq<File>, f: File)
    requires
        is_counted(f),
    ensures
        forall|ext: Seq<char>, style: Naming| #[trigger] bucket_count(entries.push(f), ext, style)
            == bucket_count(entries, ext, style) + if ext == ext_of(f.path@) && style == classify(
            base_of(f.path@),
        ) {
            1nat
        } else {
            0nat
        },
        forall|ext: Seq<char>| #[trigger] ext_present(entries.push(f), ext) <==> (ext_present(
            entries,
            ext,
        ) || ext == ext_of(f.path@)),
{
    assert(entries.push(f).drop_last() =~= entries);
    assert forall|ext: Seq<char>| #[trigger] ext_present(entries.push(f), ext) <==> (ext_present(
        entries,
        ext,
    ) || ext == ext_of(f.path@)) by {
        if ext_present(entries.push(f), ext) {
            let k = choose|k: int|
                0 <= k < entries.push(f).len() && is_counted(#[trigger] entries.push(f)[k])
                    && ext_of(entries.push(f)[k].path@) == ext;
            if k < entries.len() {
                assert(entries[k] == entries.push(f)[k]);
            }
        }
        if ext_present(entries, ext) {
            let k = choose|k: int|
                0 <= k < entries.len() && is_counted(#[trigger] entries[k]) && ext_of(
                    entries[k].path@,
                ) == ext;
            assert(is_counted(entries.push(f)[k]));
        }
        if ext == ext_of(f.path@) {
            assert(is_counted(entries.push(f)[entries.len() as int]));
        }
    }
}

/// The per-bucket counts: one cell for each naming style.
#[derive(Debug, Clone, Copy, PartialEq, Eq, Structural)]
pub struct LanguageCount {
    pub pascal: u64,
    pub camel: u64,
    pub snake: u64,
    pub kebab: u64,
    pub lower: u64,
    pub upper: u64,
    pub unknown: u64,
}

impl LanguageCount {
    /// The cell a style is counted in.
    pub open spec fn spec_get(self, style: Naming) -> u64 {
        match style {
            Naming::Pascal => self.pascal,
            Naming::Camel => self.camel,
            Naming::Snake => self.snake,
            Naming::Kebab => self.kebab,
            Naming::Lower => self.lower,
            Naming::Upper => self.upper,
            Naming::Unknown => self.unknown,
        }
    }

    /// A row with every cell at zero.
    pub fn new() -> (r: Self)
        ensures
            forall|st: Naming| #[trigger] r.spec_get(st) == 0,
    {
        LanguageCount { pascal: 0, camel: 0, snake: 0, kebab: 0, lower: 0, upper: 0, unknown: 0 }
    }

    /// A row counting one occurrence of `style` and nothing else.
    pub fn unit(style: Naming) -> (r: Self)
        ensures
            forall|st: Naming| #[trigger] r.spec_get(st) == if st == style {
                1u64
            } else {
                0u64
            },
    {
        let mut r = Self::new();
        r.bump(style);
        r
    }

    /// Adds one occurrence of `style`.
    pub fn bump(&mut self, style: Naming)
        requires
            old(self).spec_get(style) < u64::MAX,
        ensures
            final(self).spec_get(style) == old(self).spec_get(style) + 1,
            forall|st: Naming| st != style ==> #[trigger] final(self).spec_get(st) == old(
                self,
            ).spec_get(st),
    {
        match style {
            Naming::Pascal => self.pascal = self.pascal + 1,
            Naming::Camel => self.camel = self.camel + 1,
            Naming::Snake => self.snake = self.snake + 1,
            Naming::Kebab => self.kebab = self.kebab + 1,
            Naming::Lower => self.lower = self.lower + 1,
            Naming::Upper => self.upper = self.upper + 1,
            Naming::Unknown => self.unknown = self.unknown + 1,
        }
    }

    /// Reads the cell a style is counted in.
    pub fn get(&self, style: Naming) -> (r: u64)
        ensures
            r == self.spec_get(style),
    {
        match style {
            Naming::Pascal => self.pascal,
            Naming::Camel => self.camel,
            Naming::Snake => self.snake,
            Naming::Kebab => self.kebab,
            Naming::Lower => self.lower,
            Naming::Upper => self.upper,
            Naming::Unknown => self.unknown,
        }
    }
}

/// The two-level count table: extension bucket keys, each with a row of
/// per-style counts.  Keys appear once; a key is present only after an
/// entry was counted under it.
pub struct Info {
    keys: Vec<String>,
    counts: Vec<LanguageCount>,
}

impl Info {
    /// Each key has one row of counts, and no key repeats.
    pub closed spec fn wf(self) -> bool {
        &&& self.keys@.len() == self.counts@.len()
        &&& forall|i: int, j: int|
            #![trigger self.keys@[i], self.keys@[j]]
            0 <= i < j < self.keys@.len() ==> self.keys@[i]@ != self.keys@[j]@
    }

    /// The table has a bucket for `ext`.
    pub closed spec fn spec_has_key(self, ext: Seq<char>) -> bool {
        exists|i: int| 0 <= i < self.keys@.len() && #[trigger] self.keys@[i]@ == ext
    }

    /// Where the bucket for `ext` sits.
    pub closed spec fn key_index(self, ext: Seq<char>) -> int {
        choose|i: int| 0 <= i < self.keys@.len() && #[trigger] self.keys@[i]@ == ext
    }

    /// The count at `(ext, style)`; zero when the bucket is absent.
    pub closed spec fn spec_count(self, ext: Seq<char>, style: Naming) -> nat {
        if self.spec_has_key(ext) {
            self.counts@[self.key_index(ext)].spec_get(style) as nat
        } else {
            0
        }
    }

    /// How many buckets the table holds.
    pub closed spec fn spec_num_buckets(self) -> nat {
        self.keys@.len()
    }

    /// The key of the bucket at position `i`.
    pub closed spec fn spec_key_at(self, i: int) -> Seq<char> {
        self.keys@[i]@
    }

    proof fn lemma_count_at(self, j: int)
        requires
            self.wf(),
            0 <= j < self.keys@.len(),
        ensures
            self.spec_has_key(self.keys@[j]@),
            self.key_index(self.keys@[j]@) == j,
            forall|style: Naming| #[trigger] self.spec_count(self.keys@[j]@, style)
                == self.counts@[j].spec_get(style),
    {
        assert(self.spec_has_key(self.keys@[j]@));
        let k = self.key_index(self.keys@[j]@);
        assert(0 <= k < self.keys@.len() && self.keys@[k]@ == self.keys@[j]@);
        if k != j {
            assert(self.keys@[k]@ != self.keys@[j]@);
        }
    }

    /// An empty table: no buckets, every count zero.
    pub fn new() -> (r: Info)
        ensures
            r.wf(),
            forall|ext: Seq<char>| !(#[trigger] r.spec_has_key(ext)),
            forall|ext: Seq<char>, style: Naming| #[trigger] r.spec_count(ext, style) == 0,
            r.spec_num_buckets() == 0,
    {
        Info { keys: Vec::new(), counts: Vec::new() }
    }

    fn find(&self, ext: &str) -> (r: Option<usize>)
        ensures
            match r {
                Some(j) => j < self.keys@.len() && self.keys@[j as int]@ == ext@,
                None => !self.spec_has_key(ext@),
            },
    {
        let n = self.keys.len();
        let mut i: usize = 0;
        while i < n
            invariant
                i <= n,
                n == self.keys@.len(),
                forall|j: int| 0 <= j < i ==> #[trigger] self.keys@[j]@ != ext@,
            decreases n - i,
        {
            if str_eq(self.keys[i].as_str(), ext) {
                return Some(i);
            }
            i = i + 1;
        }
        None
    }

    /// The table has a bucket for `ext`.
    pub fn has_key(&self, ext: &str) -> (r: bool)
        ensures
            r == self.spec_has_key(ext@),
    {
        match self.find(ext) {
            Some(_) => true,
            None => false,
        }
    }

    /// Reads the count at `(ext, style)`; zero when the bucket is absent.
    pub fn get_count(&self, ext: &str, style: Naming) -> (r: u64)
        requires
            self.wf(),
        ensures
            r as nat == self.spec_count(ext@, style),
    {
        match self.find(ext) {
            Some(j) => {
                proof {
                    self.lemma_count_at(j as int);
                }
                self.counts[j].get(style)
            },
            None => 0,
        }
    }

    /// How many buckets the table holds.
    pub fn num_buckets(&self) -> (r: usize)
        requires
            self.wf(),
        ensures
            r == self.spec_num_buckets(),
    {
        self.keys.len()
    }

    /// The key of the bucket at position `i`.
    pub fn key_at(&self, i: usize) -> (r: &String)
        requires
            self.wf(),
            i < self.spec_num_buckets(),
        ensures
            r@ == self.spec_key_at(i as int),
            self.spec_has_key(r@),
    {
        proof {
            self.lemma_count_at(i as int);
        }
        &self.keys[i]
    }

    /// The row of counts of the bucket at position `i`.
    pub fn counts_at(&self, i: usize) -> (r: LanguageCount)
        requires
            self.wf(),
            i < self.spec_num_buckets(),
        ensures
            forall|style: Naming| #[trigger] r.spec_get(style) == self.spec_count(
                self.spec_key_at(i as int),
                style,
            ),
    {
        proof {
            self.lemma_count_at(i as int);
        }
        self.counts[i]
    }

    /// Counts one more occurrence of `style` under bucket `ext`, opening
    /// the bucket if it is absent.
    fn record(&mut self, ext: String, style: Naming)
        requires
            old(self).wf(),
            old(self).spec_count(ext@, style) < u64::MAX,
        ensures
            final(self).wf(),
            forall|e: Seq<char>, st: Naming| #[trigger] final(self).spec_count(e, st) == old(
                self,
            ).spec_count(e, st) + if e == ext@ && st == style {
                1nat
            } else {
                0nat
            },
            forall|e: Seq<char>| #[trigger] final(self).spec_has_key(e) <==> (old(
                self,
            ).spec_has_key(e) || e == ext@),
    {
        let found = self.find(ext.as_str());
        match found {
            Some(j) => {
                proof {
                    old(self).lemma_count_at(j as int);
                }
                let mut c = self.counts[j];
                c.bump(style);
                self.counts[j] = c;
                proof {
                    assert(self.keys@ == old(self).keys@);
                    assert forall|e: Seq<char>| #[trigger] self.spec_has_key(e) <==> (old(
                        self,
                    ).spec_has_key(e) || e == ext@) by {
                        if self.spec_has_key(e) {
                            let k = self.key_index(e);
                            assert(old(self).keys@[k]@ == e);
                        }
                        if old(self).spec_has_key(e) {
                            let k = old(self).key_index(e);
                            assert(self.keys@[k]@ == e);
                        }
                        if e == ext@ {
                            assert(old(self).keys@[j as int]@ == e);
                        }
                    }
                    assert forall|e: Seq<char>, st: Naming| #[trigger] self.spec_count(e, st)
                        == old(self).spec_count(e, st) + if e == ext@ && st == style {
                        1nat
                    } else {
                        0nat
                    } by {
                        if self.spec_has_key(e) {
                            let k = self.key_index(e);
                            assert(self.keys@[k]@ == e);
                            self.lemma_count_at(k);
                            old(self).lemma_count_at(k);
                            if k == j {
                                assert(e == ext@);
                            } else {
                                assert(self.counts@[k] == old(self).counts@[k]);
                                assert(e != ext@);
                            }
                        } else {
                            assert(!old(self).spec_has_key(e));
                            assert(e != ext@);
                        }
                    }
                }
            },
            None => {
                let ghost extv = ext@;
                let row = LanguageCount::unit(style);
                self.keys.push(ext);
                self.counts.push(row);
                proof {
                    let n = old(self).keys@.len() as int;
                    assert(self.keys@[n]@ == extv);
                    assert forall|i: int, j: int|
                        #![trigger self.keys@[i], self.keys@[j]]
                        0 <= i < j < self.keys@.len() implies self.keys@[i]@ != self.keys@[j]@ by {
                        if j < n {
                            assert(old(self).keys@[i]@ != old(self).keys@[j]@);
                        } else {
                            assert(old(self).keys@[i]@ != extv);
                        }
                    }
                    assert forall|e: Seq<char>| #[trigger] self.spec_has_key(e) <==> (old(
                        self,
                    ).spec_has_key(e) || e == extv) by {
                        if self.spec_has_key(e) {
                            let k = self.key_index(e);
                            if k < n {
                                assert(old(self).keys@[k]@ == e);
                            }
                        }
                        if old(self).spec_has_key(e) {
                            let k = old(self).key_index(e);
                            assert(self.keys@[k]@ == e);
                        }
                        if e == extv {
                            assert(self.keys@[n]@ == e);
                        }
                    }
                    assert forall|e: Seq<char>, st: Naming| #[trigger] self.spec_count(e, st)
                        == old(self).spec_count(e, st) + if e == extv && st == style {
                        1nat
                    } else {
                        0nat
                    } by {
                        if self.spec_has_key(e) {
                            let k = self.key_index(e);
                            assert(0 <= k <= n && self.keys@[k]@ == e);
                            self.lemma_count_at(k);
                            if k == n {
                                assert(e == extv);
                                assert(!old(self).spec_has_key(e));
                                assert(self.counts@[k] == row);
                            } else {
                                assert(e != extv);
                                assert(old(self).keys@[k]@ == e);
                                old(self).lemma_count_at(k);
                                assert(self.counts@[k] == old(self).counts@[k]);
                            }
                        } else {
                            assert(!old(self).spec_has_key(e));
                            assert(e != extv);
                        }
                    }
                }
            },
        }
    }
}

/// `t` is the count table of `entries`: every cell equals the number of
/// counted entries for it, and a bucket exists exactly when some entry
/// was counted under it.
pub open spec fn table_for(t: Info, entries: Seq<File>) -> bool {
    &&& forall|ext: Seq<char>, style: Naming| #[trigger] t.spec_count(ext, style) == bucket_count(
        entries,
        ext,
        style,
    )
    &&& forall|ext: Seq<char>| #[trigger] t.spec_has_key(ext) <==> ext_present(entries, ext)
}

/// Aggregates a tree listing into the two-level count table.
#[verifier::loop_isolation(false)]
pub fn get_naming_count(tree: &Vec<File>) -> (r: Info)
    ensures
        r.wf(),
        table_for(r, tree@),
{
    let mut info = Info::new();
    let n = tree.len();
    let mut i: usize = 0;
    while i < n
        invariant
            i <= n,
            info.wf(),
            forall|ext: Seq<char>, style: Naming| #[trigger] info.spec_count(ext, style)
                == bucket_count(tree@.take(i as int), ext, style),
            forall|ext: Seq<char>| #[trigger] info.spec_has_key(ext) <==> ext_present(
                tree@.take(i as int),
                ext,
            ),
        decreases n - i,
    {
        let ghost pre = tree@.take(i as int);
        let f = &tree[i];
        proof {
            assert(tree@.take(i as int + 1) =~= pre.push(tree@[i as int]));
        }
        if str_eq(f.entry_type.as_str(), "blob") {
            let fname = after_last(f.path.as_str(), '/');
            let name = before_first(fname.as_str(), '.');
            if !name.as_str().is_empty() {
                let ext = after_last(fname.as_str(), '.');
                let style = get_naming_style(name.as_str());
                proof {
                    assert(is_counted(tree@[i as int]));
                    lemma_bucket_count_le_len(pre, ext@, style);
                    lemma_counted_entry_adds_one(pre, tree@[i as int]);
                }
                info.record(ext, style);
            } else {
                proof {
                    lemma_empty_base_name_skipped(pre, tree@[i as int]);
                }
            }
        } else {
            proof {
                lemma_non_blob_never_counted(pre, tree@[i as int]);
            }
        }
        i = i + 1;
    }
    proof {
        assert(tree@.take(n as int) =~= tree@);
    }
    info
}

/// Aggregation is a pure function of the entry list: two tables built
/// over the same entries agree on every bucket and every count, so
/// running the aggregator twice yields an identical table.
pub proof fn lemma_aggregation_deterministic(entries: Seq<File>, t1: Info, t2: Info)
    requires
        table_for(t1, entries),
        table_for(t2, entries),
    ensures
        forall|ext: Seq<char>, style: Naming| #[trigger] t1.spec_count(ext, style)
            == #[trigger] t2.spec_count(ext, style),
        forall|ext: Seq<char>| #[trigger] t1.spec_has_key(ext) <==> #[trigger] t2.spec_has_key(
            ext,
        ),
{
}

/// `keys@` holds a string equal to `ext`.
pub open spec fn keys_contain(keys: Seq<String>, ext: Seq<char>) -> bool {
    exists|i: int| 0 <= i < keys.len() && #[trigger] keys[i]@ == ext
}

fn vec_contains_str(keys: &Vec<String>, s: &str) -> (r: bool)
    ensures
        r == keys_contain(keys@, s@),
{
    let n = keys.len();
    let mut i: usize = 0;
    while i < n
        invariant
            i <= n,
            n == keys@.len(),
            forall|j: int| 0 <= j < i ==> #[trigger] keys@[j]@ != s@,
        decreases n - i,
    {
        if str_eq(keys[i].as_str(), s) {
            return true;
        }
        i = i + 1;
    }
    false
}

/// Keeps only the buckets whose key occurs in `keys`; the retained
/// buckets' counts are unchanged, every other bucket is removed.
#[verifier::loop_isolation(false)]
pub fn restrict_to(table: &Info, keys: &Vec<String>) -> (r: Info)
    requires
        table.wf(),
    ensures
        r.wf(),
        forall|ext: Seq<char>| #[trigger] r.spec_has_key(ext) <==> (table.spec_has_key(ext)
            && keys_contain(keys@, ext)),
        forall|ext: Seq<char>, style: Naming| #[trigger] r.spec_count(ext, style)
            == if keys_contain(keys@, ext) {
            table.spec_count(ext, style)
        } else {
            0nat
        },
{
    let mut out = Info::new();
    let n = table.num_buckets();
    let mut i: usize = 0;
    while i < n
        invariant
            i <= n,
            out.wf(),
            forall|ext: Seq<char>| #[trigger] out.spec_has_key(ext) <==> (exists|k: int|
                0 <= k < i && #[trigger] table.keys@[k]@ == ext && keys_contain(keys@, ext)),
            forall|ext: Seq<char>, style: Naming| #[trigger] out.spec_count(ext, style)
                == if out.spec_has_key(ext) {
                table.spec_count(ext, style)
            } else {
                0nat
            },
        decreases n - i,
    {
        proof {
            table.lemma_count_at(i as int);
        }
        if vec_contains_str(keys, table.keys[i].as_str()) {
            let key = table.keys[i].clone();
            let row = table.counts[i];
            let ghost preout = out;
            out.keys.push(key);
            out.counts.push(row);
            proof {
                let m = preout.keys@.len() as int;
                assert forall|a: int, b: int|
                    #![trigger out.keys@[a], out.keys@[b]]
                    0 <= a < b < out.keys@.len() implies out.keys@[a]@ != out.keys@[b]@ by {
                    if b < m {
                        assert(preout.keys@[a]@ != preout.keys@[b]@);
                    } else {
                        assert(preout.spec_has_key(preout.keys@[a]@));
                        if preout.keys@[a]@ == table.keys@[i as int]@ {
                            let k = choose|k: int|
                                0 <= k < i && #[trigger] table.keys@[k]@ == preout.keys@[a]@
                                    && keys_contain(keys@, preout.keys@[a]@);
                            assert(table.keys@[k]@ != table.keys@[i as int]@);
                        }
                    }
                }
                assert forall|ext: Seq<char>| #[trigger] out.spec_has_key(ext) <==> (exists|k: int|
                    0 <= k < i + 1 && #[trigger] table.keys@[k]@ == ext && keys_contain(
                        keys@,
                        ext,
                    )) by {
                    if out.spec_has_key(ext) {
                        let k = out.key_index(ext);
                        if k < m {
                            assert(preout.spec_has_key(ext));
                        } else {
                            assert(table.keys@[i as int]@ == ext);
                        }
                    }
                    if exists|k: int|
                        0 <= k < i + 1 && #[trigger] table.keys@[k]@ == ext && keys_contain(
                            keys@,
                            ext,
                        ) {
                        let k = choose|k: int|
                            0 <= k < i + 1 && #[trigger] table.keys@[k]@ == ext && keys_contain(
                                keys@,
                                ext,
                            );
                        if k < i {
                            assert(preout.spec_has_key(ext));
                            let p = preout.key_index(ext);
                            assert(out.keys@[p]@ == ext);
                        } else {
                            assert(out.keys@[m]@ == ext);
                        }
                    }
                }
                assert forall|ext: Seq<char>, style: Naming| #[trigger] out.spec_count(ext, style)
                    == if out.spec_has_key(ext) {
                    table.spec_count(ext, style)
                } else {
                    0nat
                } by {
                    if out.spec_has_key(ext) {
                        let k = out.key_index(ext);
                        assert(0 <= k <= m && out.keys@[k]@ == ext);
                        out.lemma_count_at(k);
                        if k == m {
                            assert(ext == table.keys@[i as int]@);
                            assert(out.counts@[k] == table.counts@[i as int]);
                            assert(out.spec_count(ext, style) == table.counts@[
                                i as int
                            ].spec_get(style));
                            assert(table.spec_count(ext, style) == table.counts@[
                                i as int
                            ].spec_get(style));
                        } else {
                            assert(preout.keys@[k]@ == ext);
                            preout.lemma_count_at(k);
                            assert(out.counts@[k] == preout.counts@[k]);
                            assert(preout.spec_has_key(ext));
                            assert(preout.spec_count(ext, style) == table.spec_count(ext, style));
                            assert(out.spec_count(ext, style) == preout.spec_count(ext, style));
                        }
                    }
                }
            }
        } else {
            proof {
                assert forall|ext: Seq<char>| #[trigger] out.spec_has_key(ext) <==> (exists|k: int|
                    0 <= k < i + 1 && #[trigger] table.keys@[k]@ == ext && keys_contain(
                        keys@,
                        ext,
                    )) by {
                    if exists|k: int|
                        0 <= k < i + 1 && #[trigger] table.keys@[k]@ == ext && keys_contain(
                            keys@,
                            ext,
                        ) {
                        let k = choose|k: int|
                            0 <= k < i + 1 && #[trigger] table.keys@[k]@ == ext && keys_contain(
                                keys@,
                                ext,
                            );
                        assert(k < i);
                    }
                }
            }
        }
        i = i + 1;
    }
    proof {
        assert forall|ext: Seq<char>| #[trigger] out.spec_has_key(ext) <==> (table.spec_has_key(
            ext,
        ) && keys_contain(keys@, ext)) by {
            if out.spec_has_key(ext) {
                let k = choose|k: int|
                    0 <= k < n && #[trigger] table.keys@[k]@ == ext && keys_contain(keys@, ext);
                assert(table.spec_has_key(ext));
            }
            if table.spec_has_key(ext) && keys_contain(keys@, ext) {
                let k = table.key_index(ext);
                assert(table.keys@[k]@ == ext);
            }
        }
        assert forall|ext: Seq<char>, style: Naming| #[trigger] out.spec_count(ext, style)
            == if keys_contain(keys@, ext) {
            table.spec_count(ext, style)
        } else {
            0nat
        } by {
            if keys_contain(keys@, ext) {
                if !out.spec_has_key(ext) {
                    assert(!table.spec_has_key(ext));
                }
            } else {
                assert(!out.spec_has_key(ext));
            }
        }
    }
    out
}

} // verus!
