//! The lookup index: owns the records parsed from the dataset, keyed by
//! the BIN string itself, and answers batch queries.
//!
//! Keys are the BIN digit strings verbatim (no derived digest): a lookup
//! probes with the same representation the dataset stores. When two rows
//! share a BIN, the later row in file order silently overwrites the
//! earlier one (last-write-wins).

use vstd::prelude::*;
use vstd::hash_map::StringHashMap;
use crate::loader::{
    dataset_ok, dataset_records, parse_records, BinDbError, BinRecord, BinRecordModel,
};

verus! {

/// The index a record sequence builds: each record inserted under its own
/// BIN, in order, so of two records with the same BIN the later one wins.
pub open spec fn built_index(rs: Seq<BinRecordModel>) -> Map<Seq<char>, BinRecordModel>
    decreases rs.len(),
{
    if rs.len() == 0 {
        Map::empty()
    } else {
        built_index(rs.drop_last()).insert(rs.last().bin, rs.last())
    }
}

/// The deduplicated set of two-letter ISO codes that a batch of BIN
/// queries draws from an index: one code for every queried BIN that has a
/// record, misses contributing nothing.
pub open spec fn iso_codes(m: Map<Seq<char>, BinRecordModel>, bins: Seq<Seq<char>>) -> Set<
    Seq<char>,
> {
    Set::new(
        |c: Seq<char>|
            exists|i: int|
                0 <= i < bins.len() && #[trigger] m.contains_key(bins[i])
                    && m[bins[i]].iso_code_2 == c,
    )
}

/// The in-memory BIN database: an immutable mapping from BIN string to
/// its record, built once from the dataset bytes and read-only afterward.
pub struct BinDb {
    index: StringHashMap<BinRecord>,
}

impl View for BinDb {
    type V = Map<Seq<char>, BinRecordModel>;

    closed spec fn view(&self) -> Map<Seq<char>, BinRecordModel> {
        Map::new(
            |k: Seq<char>| self.index@.contains_key(k),
            |k: Seq<char>| self.index@[k]@,
        )
    }
}

impl BinDb {
    /// Builds the index from the raw dataset bytes: parses the records
    /// and inserts each under its own BIN string, later rows overwriting
    /// earlier ones. Fails exactly when the dataset is malformed, with
    /// the loader's error.
    pub fn new(data: &[u8]) -> (r: Result<BinDb, BinDbError>)
        ensures
            r is Ok <==> dataset_ok(data@),
            match r {
                Ok(db) => db@ == built_index(dataset_records(data@)),
                Err(e) => crate::loader::load_failure(data@, e),
            },
    {
        let recs = match parse_records(data) {
            Ok(v) => v,
            Err(e) => {
                return Err(e);
            },
        };
        let mut index: StringHashMap<BinRecord> = StringHashMap::with_capacity(recs.len());
        let mut i: usize = 0;
        proof {
            assert(recs.deep_view().take(0) =~= Seq::<BinRecordModel>::empty());
            assert(Map::new(
                |k: Seq<char>| index@.contains_key(k),
                |k: Seq<char>| index@[k]@,
            ) =~= built_index(recs.deep_view().take(0)));
        }
        while i < recs.len()
            invariant
                i <= recs@.len(),
                recs.deep_view() == dataset_records(data@),
                Map::new(
                    |k: Seq<char>| index@.contains_key(k),
                    |k: Seq<char>| index@[k]@,
                ) == built_index(recs.deep_view().take(i as int)),
            decreases recs@.len() - i,
        {
            let ghost prev = index@;
            let rec = (&recs[i]).clone();
            proof {
                assert(rec@ == recs.deep_view()[i as int]);
            }
            let key = rec.bin.clone();
            index.insert(key, rec);
            proof {
                let t1 = recs.deep_view().take(i + 1);
                assert(t1.drop_last() =~= recs.deep_view().take(i as int));
                assert(t1.last() == recs.deep_view()[i as int]);
                assert(Map::new(
                    |k: Seq<char>| index@.contains_key(k),
                    |k: Seq<char>| index@[k]@,
                ) =~= built_index(recs.deep_view().take(i as int)).insert(rec@.bin, rec@));
            }
            i = i + 1;
        }
        proof {
            assert(recs.deep_view().take(recs@.len() as int) =~= recs.deep_view());
        }
        Ok(BinDb { index })
    }

    /// Probes the index with one BIN string: the record stored under it,
    /// or `None` when the BIN is absent.
    pub fn get<'a>(&'a self, bin: &str) -> (r: Option<&'a BinRecord>)
        ensures
            match r {
                Some(rec) => self@.contains_key(bin@) && rec@ == self@[bin@],
                None => !self@.contains_key(bin@),
            },
    {
        self.index.get(bin)
    }

    /// The number of records in the index.
    pub fn len(&self) -> (n: usize)
        ensures
            n == self@.len(),
    {
        let n = self.index.len();
        proof {
            assert(self@.dom() =~= self.index@.dom());
        }
        n
    }

    /// True when the index holds no record at all.
    pub fn is_empty(&self) -> (r: bool)
        ensures
            r == self@.dom().is_empty(),
    {
        let r = self.index.is_empty();
        proof {
            assert(self@.dom() =~= self.index@.dom());
        }
        r
    }

    /// Batch lookup: the set of two-letter ISO codes of all queried BINs
    /// that matched, duplicates collapsed, misses silently skipped. The
    /// result is pinned to `iso_codes` of the index and the batch alone,
    /// its entries are pairwise distinct, and there are never more of
    /// them than queried BINs.
    pub fn get_iso2_codes(&self, bins: &Vec<String>) -> (r: Vec<String>)
        ensures
            r.deep_view().to_set() == iso_codes(self@, bins.deep_view()),
            forall|p: int, q: int| 0 <= p < q < r@.len() ==> r@[p]@ != r@[q]@,
            r@.len() <= bins@.len(),
    {
        let mut out: Vec<String> = Vec::new();
        let mut seen: StringHashMap<bool> = StringHashMap::new();
        let mut j: usize = 0;
        proof {
            assert(bins.deep_view().take(0) =~= Seq::<Seq<char>>::empty());
            assert(out.deep_view().to_set() =~= iso_codes(self@, bins.deep_view().take(0)));
        }
        while j < bins.len()
            invariant
                j <= bins@.len(),
                out.deep_view().to_set() == iso_codes(self@, bins.deep_view().take(j as int)),
                seen@.dom() == out.deep_view().to_set(),
                forall|p: int, q: int| 0 <= p < q < out@.len() ==> out@[p]@ != out@[q]@,
                out@.len() <= j,
            decreases bins@.len() - j,
        {
            let ghost prev_set = out.deep_view().to_set();
            let ghost bj = bins.deep_view()[j as int];
            let b = &bins[j];
            proof {
                assert(bj == b@);
                let t1 = bins.deep_view().take(j + 1);
                assert(t1.drop_last() =~= bins.deep_view().take(j as int));
                assert(t1.last() == bj);
                lemma_codes_push(self@, bins.deep_view().take(j as int), bj);
            }
            match self.index.get(b.as_str()) {
                Some(rec) => {
                    proof {
                        assert(self@.contains_key(bj));
                        assert(self@[bj] == rec@);
                    }
                    let code = &rec.iso_code_2;
                    if !seen.contains_key(code.as_str()) {
                        let ghost prev_out = out.deep_view();
                        proof {
                            assert(!prev_set.contains(code@));
                            assert forall|p: int| 0 <= p < prev_out.len() implies prev_out[p]
                                != code@ by {
                                assert(prev_out.contains(prev_out[p]));
                                assert(prev_set.contains(prev_out[p]));
                            }
                        }
                        out.push(code.clone());
                        seen.insert(code.clone(), true);
                        proof {
                            assert(out.deep_view() =~= prev_out.push(code@));
                            assert forall|p: int, q: int|
                                0 <= p < q < out@.len() implies out@[p]@ != out@[q]@ by {
                                if q == out@.len() - 1 {
                                    assert(out@[p]@ == prev_out[p]);
                                    assert(out@[q]@ == code@);
                                }
                            }
                            lemma_to_set_push(prev_out, code@);
                            assert(out.deep_view().to_set() == prev_set.insert(code@));
                            assert(seen@.dom() =~= out.deep_view().to_set());
                            assert(out.deep_view().to_set() =~= iso_codes(
                                self@,
                                bins.deep_view().take(j + 1),
                            ));
                        }
                    } else {
                        proof {
                            assert(prev_set.contains(code@));
                            assert(prev_set.insert(code@) =~= prev_set);
                            assert(out.deep_view().to_set() =~= iso_codes(
                                self@,
                                bins.deep_view().take(j + 1),
                            ));
                        }
                    }
                },
                None => {
                    proof {
                        assert(!self@.contains_key(bj));
                        assert(out.deep_view().to_set() =~= iso_codes(
                            self@,
                            bins.deep_view().take(j + 1),
                        ));
                    }
                },
            }
            j = j + 1;
        }
        proof {
            assert(bins.deep_view().take(bins@.len() as int) =~= bins.deep_view());
        }
        out
    }
}

proof fn lemma_to_set_push(s: Seq<Seq<char>>, x: Seq<char>)
    ensures
        s.push(x).to_set() == s.to_set().insert(x),
{
    assert forall|a: Seq<char>| s.push(x).to_set().contains(a) implies s.to_set().insert(
        x,
    ).contains(a) by {
        let i = choose|i: int| 0 <= i < s.push(x).len() && s.push(x)[i] == a;
        if i < s.len() {
            assert(s[i] == a);
            assert(s.contains(a));
        } else {
            assert(a == x);
        }
    }
    assert forall|a: Seq<char>| s.to_set().insert(x).contains(a) implies s.push(
        x,
    ).to_set().contains(a) by {
        if a == x {
            assert(s.push(x)[s.len() as int] == a);
            assert(s.push(x).contains(a));
        } else {
            let i = choose|i: int| 0 <= i < s.len() && s[i] == a;
            assert(s.push(x)[i] == a);
            assert(s.push(x).contains(a));
        }
    }
    assert(s.push(x).to_set() =~= s.to_set().insert(x));
}

/// How one more queried BIN changes the code set: a hit adds its record's
/// code, a miss changes nothing.
pub proof fn lemma_codes_push(
    m: Map<Seq<char>, BinRecordModel>,
    bins: Seq<Seq<char>>,
    b: Seq<char>,
)
    ensures
        iso_codes(m, bins.push(b)) == if m.contains_key(b) {
            iso_codes(m, bins).insert(m[b].iso_code_2)
        } else {
            iso_codes(m, bins)
        },
{
    let lhs = iso_codes(m, bins.push(b));
    let ext = bins.push(b);
    assert forall|c: Seq<char>| lhs.contains(c) implies (if m.contains_key(b) {
        iso_codes(m, bins).insert(m[b].iso_code_2)
    } else {
        iso_codes(m, bins)
    }).contains(c) by {
        let i = choose|i: int|
            0 <= i < ext.len() && #[trigger] m.contains_key(ext[i]) && m[ext[i]].iso_code_2 == c;
        if i < bins.len() {
            assert(ext[i] == bins[i]);
            assert(iso_codes(m, bins).contains(c));
        } else {
            assert(ext[i] == b);
        }
    }
    assert forall|c: Seq<char>| (if m.contains_key(b) {
        iso_codes(m, bins).insert(m[b].iso_code_2)
    } else {
        iso_codes(m, bins)
    }).contains(c) implies lhs.contains(c) by {
        if iso_codes(m, bins).contains(c) {
            let i = choose|i: int|
                0 <= i < bins.len() && #[trigger] m.contains_key(bins[i]) && m[bins[i]].iso_code_2
                    == c;
            assert(ext[i] == bins[i]);
            assert(m.contains_key(ext[i]) && m[ext[i]].iso_code_2 == c);
        } else {
            assert(m.contains_key(b) && c == m[b].iso_code_2);
            assert(ext[bins.len() as int] == b);
            assert(m.contains_key(ext[bins.len() as int]) && m[ext[bins.len() as int]].iso_code_2
                == c);
        }
    }
    assert(lhs =~= (if m.contains_key(b) {
        iso_codes(m, bins).insert(m[b].iso_code_2)
    } else {
        iso_codes(m, bins)
    }));
}

/// Law: a BIN with no record contributes nothing to the result set, and
/// raises no error; querying it is indistinguishable from leaving it out.
pub proof fn lemma_miss_silent(
    m: Map<Seq<char>, BinRecordModel>,
    bins: Seq<Seq<char>>,
    b: Seq<char>,
)
    requires
        !m.contains_key(b),
    ensures
        iso_codes(m, bins.push(b)) == iso_codes(m, bins),
{
    lemma_codes_push(m, bins, b);
}

/// Law: the batch result depends only on the set of queried BINs, not on
/// their order or multiplicity; in particular a BIN queried twice counts
/// once.
pub proof fn lemma_batch_dedup(
    m: Map<Seq<char>, BinRecordModel>,
    bins1: Seq<Seq<char>>,
    bins2: Seq<Seq<char>>,
)
    requires
        bins1.to_set() == bins2.to_set(),
    ensures
        iso_codes(m, bins1) == iso_codes(m, bins2),
{
    assert forall|c: Seq<char>| iso_codes(m, bins1).contains(c) implies iso_codes(
        m,
        bins2,
    ).contains(c) by {
        let i = choose|i: int|
            0 <= i < bins1.len() && #[trigger] m.contains_key(bins1[i]) && m[bins1[i]].iso_code_2
                == c;
        assert(bins1.to_set().contains(bins1[i]));
        assert(bins2.contains(bins1[i]));
        let k = choose|k: int| 0 <= k < bins2.len() && bins2[k] == bins1[i];
        assert(m.contains_key(bins2[k]) && m[bins2[k]].iso_code_2 == c);
    }
    assert forall|c: Seq<char>| iso_codes(m, bins2).contains(c) implies iso_codes(
        m,
        bins1,
    ).contains(c) by {
        let i = choose|i: int|
            0 <= i < bins2.len() && #[trigger] m.contains_key(bins2[i]) && m[bins2[i]].iso_code_2
                == c;
        assert(bins2.to_set().contains(bins2[i]));
        assert(bins1.contains(bins2[i]));
        let k = choose|k: int| 0 <= k < bins1.len() && bins1[k] == bins2[i];
        assert(m.contains_key(bins1[k]) && m[bins1[k]].iso_code_2 == c);
    }
    assert(iso_codes(m, bins1) =~= iso_codes(m, bins2));
}

/// Law: batch lookup is a pure function of the index and the batch; any
/// two results of the same query against the same index are the same set.
pub proof fn lemma_lookup_deterministic(
    m: Map<Seq<char>, BinRecordModel>,
    bins: Seq<Seq<char>>,
    r1: Seq<Seq<char>>,
    r2: Seq<Seq<char>>,
)
    requires
        r1.to_set() == iso_codes(m, bins),
        r2.to_set() == iso_codes(m, bins),
    ensures
        r1.to_set() == r2.to_set(),
{
}

/// Law: every record of a built index is keyed by its own BIN, so probing
/// with a stored record's BIN yields exactly that record back.
pub proof fn lemma_key_roundtrip(rs: Seq<BinRecordModel>)
    ensures
        forall|k: Seq<char>| #[trigger]
            built_index(rs).contains_key(k) ==> built_index(rs)[k].bin == k,
        forall|k: Seq<char>| #[trigger]
            built_index(rs).contains_key(k) ==> built_index(rs).contains_key(built_index(rs)[k].bin)
                && built_index(rs)[built_index(rs)[k].bin] == built_index(rs)[k],
    decreases rs.len(),
{
    if rs.len() > 0 {
        lemma_key_roundtrip(rs.drop_last());
        let prev = built_index(rs.drop_last());
        let m = built_index(rs);
        assert(m == prev.insert(rs.last().bin, rs.last()));
        assert forall|k: Seq<char>| #[trigger] m.contains_key(k) implies m[k].bin == k by {
            if k != rs.last().bin {
                assert(prev.contains_key(k));
            }
        }
    }
    let m = built_index(rs);
    assert forall|k: Seq<char>| #[trigger] m.contains_key(k) implies m.contains_key(m[k].bin)
        && m[m[k].bin] == m[k] by {
        assert(m[k].bin == k);
    }
}

/// Law: of two rows with the same BIN the later wins; appending a record
/// overwrites whatever its BIN was mapped to before.
pub proof fn lemma_last_write_wins(rs: Seq<BinRecordModel>, rec: BinRecordModel)
    ensures
        built_index(rs.push(rec)) == built_index(rs).insert(rec.bin, rec),
{
    assert(rs.push(rec).drop_last() =~= rs);
    assert(rs.push(rec).last() == rec);
}

/// Law: a dataset with at least one data row builds an index that holds
/// a record, namely one under the last row's BIN.
pub proof fn lemma_nonempty_build(rs: Seq<BinRecordModel>)
    requires
        rs.len() > 0,
    ensures
        built_index(rs).contains_key(rs.last().bin),
        !built_index(rs).dom().is_empty(),
{
    assert(built_index(rs).dom().contains(rs.last().bin));
}

} // verus!
