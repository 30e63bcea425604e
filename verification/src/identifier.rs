use vstd::prelude::*;
use crate::artifacts::{
    abi_view, clone_bytes, identifier_of, Abi, ArtifactId, ArtifactIdView, Catalogue,
    CatalogueEntry,
};
use crate::ctor_args::{ctor_decode_ok, ctor_decodes};
use crate::scorer::SimilarityScorer;
use crate::MATCH_THRESHOLD;

verus! {

/// One artifact-index record: the position of the artifact in the catalogue
/// and the length of its deployed bytecode.
#[derive(Clone, Copy)]
pub struct IndexEntry {
    pub pos: usize,
    pub code_len: usize,
}

/// An address for which code was observed, as its raw bytes.
pub struct Address {
    pub bytes: Vec<u8>,
}

impl View for Address {
    type V = Seq<u8>;

    open spec fn view(&self) -> Seq<u8> {
        self.bytes@
    }
}

impl Clone for Address {
    fn clone(&self) -> (r: Self)
        ensures
            r@ == self@,
    {
        Address { bytes: clone_bytes(&self.bytes) }
    }
}

/// One observation handed to the identification façade: an address together
/// with the runtime code and the creation code seen for it, either of which
/// may be missing.
pub struct AddressEntry {
    pub address: Address,
    pub runtime_code: Option<Vec<u8>>,
    pub creation_code: Option<Vec<u8>>,
}

/// The identity resolved for one address. Every field except the address is
/// optional: an unresolved address is an expected outcome, not an error.
pub struct AddressIdentity {
    pub address: Address,
    pub contract: Option<String>,
    pub label: Option<String>,
    pub abi: Option<Abi>,
    pub artifact_id: Option<ArtifactId>,
}

/// Mathematical value of an [`AddressIdentity`].
pub ghost struct AddressIdentityView {
    pub address: Seq<u8>,
    pub contract: Option<Seq<char>>,
    pub label: Option<Seq<char>>,
    pub abi: Option<Option<Seq<Seq<char>>>>,
    pub artifact_id: Option<ArtifactIdView>,
}

impl DeepView for AddressIdentity {
    type V = AddressIdentityView;

    open spec fn deep_view(&self) -> AddressIdentityView {
        AddressIdentityView {
            address: self.address@,
            contract: match self.contract {
                Some(c) => Some(c@),
                None => None,
            },
            label: match self.label {
                Some(l) => Some(l@),
                None => None,
            },
            abi: match self.abi {
                Some(a) => Some(abi_view(a)),
                None => None,
            },
            artifact_id: match self.artifact_id {
                Some(i) => Some(i@),
                None => None,
            },
        }
    }
}

/// The index entries are ordered by ascending deployed-code length.
pub open spec fn sorted_by_len(s: Seq<IndexEntry>) -> bool {
    forall|k1: int, k2: int|
        0 <= k1 <= k2 < s.len() ==> (#[trigger] s[k1].code_len) <= (#[trigger] s[k2].code_len)
}

/// The smallest position whose entry has a code length of at least `len`, or
/// the length of the sequence if there is none.
pub open spec fn lower_bound_from(s: Seq<IndexEntry>, len: int) -> int
    decreases s.len(),
{
    if s.len() == 0 {
        0
    } else if s[0].code_len >= len {
        0
    } else {
        1 + lower_bound_from(s.skip(1), len)
    }
}

pub proof fn lemma_lower_bound_props(s: Seq<IndexEntry>, len: int)
    requires
        sorted_by_len(s),
    ensures
        0 <= lower_bound_from(s, len) <= s.len(),
        forall|k: int| 0 <= k < lower_bound_from(s, len) ==> (#[trigger] s[k].code_len) < len,
        forall|k: int|
            lower_bound_from(s, len) <= k < s.len() ==> (#[trigger] s[k].code_len) >= len,
    decreases s.len(),
{
    if s.len() == 0 {
    } else if s[0].code_len >= len {
        assert forall|k: int| 0 <= k < s.len() implies (#[trigger] s[k].code_len) >= len by {
            assert(s[0].code_len <= s[k].code_len);
        }
    } else {
        let t = s.skip(1);
        assert(sorted_by_len(t)) by {
            assert forall|k1: int, k2: int| 0 <= k1 <= k2 < t.len() implies (#[trigger] t[k1].code_len)
                <= (#[trigger] t[k2].code_len) by {
                assert(t[k1] == s[k1 + 1]);
                assert(t[k2] == s[k2 + 1]);
            }
        }
        lemma_lower_bound_props(t, len);
        let lb = lower_bound_from(s, len);
        assert forall|k: int| 0 <= k < lb implies (#[trigger] s[k].code_len) < len by {
            if k > 0 {
                assert(t[k - 1] == s[k]);
            }
        }
        assert forall|k: int| lb <= k < s.len() implies (#[trigger] s[k].code_len) >= len by {
            assert(t[k - 1] == s[k]);
        }
    }
}

pub proof fn lemma_lower_bound_monotone(s: Seq<IndexEntry>, l1: int, l2: int)
    requires
        sorted_by_len(s),
        l1 <= l2,
    ensures
        lower_bound_from(s, l1) <= lower_bound_from(s, l2),
{
    lemma_lower_bound_props(s, l1);
    lemma_lower_bound_props(s, l2);
    if lower_bound_from(s, l2) < lower_bound_from(s, l1) {
        let k = lower_bound_from(s, l2);
        assert(s[k].code_len < l1);
        assert(s[k].code_len >= l2);
    }
}

/// State of a candidate scan: either an exact match was hit at an index slot,
/// or the scan is still tracking the best (lowest) score seen and the slot
/// that first achieved it.
pub ghost enum Scan {
    Found { k: int },
    Going { best: int, who: Option<int> },
}

/// The local trace identifier: resolves addresses to artifacts of the given
/// catalogue by comparing observed bytecode against the catalogue's bytecode,
/// using the given similarity scorer.
pub struct LocalTraceIdentifier<S: SimilarityScorer> {
    /// Known contracts to search through.
    pub known_contracts: Catalogue,
    /// Artifact index: catalogue positions paired with deployed-code length,
    /// sorted ascending by length.
    pub ordered_ids: Vec<IndexEntry>,
    /// The similarity scorer consulted for every comparison.
    pub scorer: S,
}

impl<S: SimilarityScorer> LocalTraceIdentifier<S> {
    pub open spec fn cat(self) -> Seq<CatalogueEntry> {
        self.known_contracts.entries@
    }

    pub open spec fn idx(self) -> Seq<IndexEntry> {
        self.ordered_ids@
    }

    /// The index entry at slot `k` refers to an artifact of the catalogue that
    /// has both bytecodes, and records its deployed-code length.
    pub open spec fn entry_ok(self, k: int) -> bool {
        let e = self.idx()[k];
        &&& self.known_contracts.eligible(e.pos as int)
        &&& e.code_len == self.cat()[e.pos as int].artifact.deployed_bytecode->Some_0@.len()
    }

    /// Well-formedness of the identifier: the index is sorted by length and
    /// holds exactly the eligible artifacts, each once.
    pub open spec fn wf(self) -> bool {
        &&& forall|k: int| 0 <= k < self.idx().len() ==> #[trigger] self.entry_ok(k)
        &&& sorted_by_len(self.idx())
        &&& forall|k1: int, k2: int|
            0 <= k1 < k2 < self.idx().len() ==> (#[trigger] self.idx()[k1].pos) != (
            #[trigger] self.idx()[k2].pos)
        &&& forall|p: int|
            #[trigger] self.known_contracts.eligible(p) ==> exists|k: int|
                0 <= k < self.idx().len() && (#[trigger] self.idx()[k].pos) as int == p
    }

    pub open spec fn lb(self, len: int) -> int {
        lower_bound_from(self.idx(), len)
    }

    /// Creates a new local trace identifier over the given catalogue, indexing
    /// every artifact that exposes both creation and deployed bytecode.
    pub fn new(known_contracts: Catalogue, scorer: S) -> (r: Self)
        ensures
            r.wf(),
            r.known_contracts == known_contracts,
            r.scorer == scorer,
    {
        let mut ordered_ids: Vec<IndexEntry> = Vec::new();
        let n = known_contracts.entries.len();
        let mut pos: usize = 0;
        while pos < n
            invariant
                n == known_contracts.entries@.len(),
                pos <= n,
                sorted_by_len(ordered_ids@),
                forall|k: int|
                    0 <= k < ordered_ids@.len() ==> {
                        let e = #[trigger] ordered_ids@[k];
                        &&& known_contracts.eligible(e.pos as int)
                        &&& e.pos < pos
                        &&& e.code_len == known_contracts.entries@[e.pos as int].artifact
                            .deployed_bytecode->Some_0@.len()
                    },
                forall|k1: int, k2: int|
                    0 <= k1 < k2 < ordered_ids@.len() ==> (#[trigger] ordered_ids@[k1].pos) != (
                    #[trigger] ordered_ids@[k2].pos),
                forall|p: int|
                    0 <= p < pos && #[trigger] known_contracts.eligible(p) ==> exists|k: int|
                        0 <= k < ordered_ids@.len() && (#[trigger] ordered_ids@[k].pos) as int == p,
            decreases n - pos,
        {
            let entry = &known_contracts.entries[pos];
            if entry.artifact.bytecode.is_some() && entry.artifact.deployed_bytecode.is_some() {
                let code_len = entry.artifact.deployed_bytecode.as_ref().unwrap().len();
                let mut j: usize = 0;
                while j < ordered_ids.len() && ordered_ids[j].code_len <= code_len
                    invariant
                        j <= ordered_ids@.len(),
                        forall|k: int|
                            0 <= k < j ==> (#[trigger] ordered_ids@[k].code_len) <= code_len,
                    decreases ordered_ids.len() - j,
                {
                    j += 1;
                }
                let ghost before = ordered_ids@;
                ordered_ids.insert(j, IndexEntry { pos, code_len });
                proof {
                    let now = ordered_ids@;
                    assert(now == before.insert(j as int, IndexEntry { pos, code_len }));
                    assert forall|k1: int, k2: int| 0 <= k1 <= k2 < now.len() implies (
                    #[trigger] now[k1].code_len) <= (#[trigger] now[k2].code_len) by {
                        if k1 < j && j < k2 {
                            assert(now[k1] == before[k1]);
                            assert(now[k2] == before[k2 - 1]);
                            assert(before[k1].code_len <= code_len);
                            assert(code_len <= before[k2 - 1].code_len || k2 - 1 < j);
                        }
                    }
                    assert forall|p: int|
                        0 <= p < pos + 1 && #[trigger] known_contracts.eligible(p) implies exists|
                        k: int,
                    |
                        0 <= k < now.len() && (#[trigger] now[k].pos) as int == p by {
                        if p == pos {
                            assert(now[j as int].pos as int == p);
                        } else {
                            let k0 = choose|k: int|
                                0 <= k < before.len() && (#[trigger] before[k].pos) as int == p;
                            if k0 < j {
                                assert(now[k0].pos as int == p);
                            } else {
                                assert(now[k0 + 1].pos as int == p);
                            }
                        }
                    }
                }
            }
            pos += 1;
        }
        LocalTraceIdentifier { known_contracts, ordered_ids, scorer }
    }

    /// Returns the known contracts.
    pub fn contracts(&self) -> (r: &Catalogue)
        ensures
            *r == self.known_contracts,
    {
        &self.known_contracts
    }

    /// Returns the first index slot whose artifact has a deployed-code length
    /// of at least `len`; with several artifacts of that exact length, the
    /// leftmost slot. Returns the index length when every entry is shorter.
    fn find_index(&self, len: usize) -> (r: usize)
        requires
            self.wf(),
        ensures
            r as int == self.lb(len as int),
    {
        let n = self.ordered_ids.len();
        let mut lo: usize = 0;
        let mut hi: usize = n;
        while lo < hi
            invariant
                self.wf(),
                lo <= hi <= n,
                n == self.idx().len(),
                forall|k: int| 0 <= k < lo ==> (#[trigger] self.idx()[k].code_len) < len,
                forall|k: int| hi <= k < n ==> (#[trigger] self.idx()[k].code_len) >= len,
            decreases hi - lo,
        {
            let mid = lo + (hi - lo) / 2;
            if self.ordered_ids[mid].code_len < len {
                proof {
                    assert forall|k: int| 0 <= k < mid + 1 implies (#[trigger] self.idx()[k].code_len)
                        < len by {
                        assert(self.idx()[k].code_len <= self.idx()[mid as int].code_len);
                    }
                }
                lo = mid + 1;
            } else {
                proof {
                    assert forall|k: int| mid <= k < n implies (#[trigger] self.idx()[k].code_len)
                        >= len by {
                        assert(self.idx()[mid as int].code_len <= self.idx()[k].code_len);
                    }
                }
                hi = mid;
            }
        }
        proof {
            lemma_lower_bound_props(self.idx(), len as int);
            let lb = self.lb(len as int);
            if lb < lo as int {
                assert(self.idx()[lb].code_len >= len);
                assert(self.idx()[lb].code_len < len);
            }
            if (lo as int) < lb {
                assert(self.idx()[lo as int].code_len < len);
                assert(self.idx()[lo as int].code_len >= len);
            }
        }
        lo
    }
}

/// Lower edge of the candidate window for an observed code length.
pub open spec fn window_low(len: int) -> int {
    len * 9 / 10
}

/// Upper edge of the candidate window for an observed code length.
pub open spec fn window_high(len: int) -> int {
    len * 11 / 10
}

/// Scan state before any candidate was looked at.
pub open spec fn initial_scan() -> Scan {
    Scan::Going { best: u64::MAX as int, who: None }
}

pub open spec fn slot_opt(o: Option<usize>) -> Option<int> {
    match o {
        Some(k) => Some(k as int),
        None => None,
    }
}

proof fn lemma_window_around_len(len: int)
    requires
        0 <= len,
    ensures
        window_low(len) <= len <= window_high(len),
{
    vstd::arithmetic::div_mod::lemma_div_is_ordered(len * 9, len * 10, 10);
    vstd::arithmetic::div_mod::lemma_div_is_ordered(len * 10, len * 11, 10);
    vstd::arithmetic::div_mod::lemma_div_multiples_vanish(len, 10);
    assert(len * 10 == 10 * len);
}

impl<S: SimilarityScorer> LocalTraceIdentifier<S> {
    /// Observed creation code as compared against the candidate at index slot
    /// `k`: when the observed code is longer than the candidate's creation
    /// bytecode and the surplus tail decodes as arguments of the candidate's
    /// constructor, the tail is stripped before scoring.
    pub open spec fn creation_observed(self, k: int, creation: Seq<u8>) -> Seq<u8> {
        let art = self.cat()[self.idx()[k].pos as int].artifact;
        let cand = art.bytecode->Some_0@;
        match art.abi.constructor_params {
            Some(ps) => if creation.len() > cand.len() && ctor_decodes(
                ps.deep_view(),
                creation.skip(cand.len() as int),
            ) {
                creation.take(cand.len() as int)
            } else {
                creation
            },
            None => creation,
        }
    }

    /// Score of the candidate at slot `k` when comparing creation code.
    pub open spec fn cscore(self, k: int, creation: Seq<u8>) -> int {
        let art = self.cat()[self.idx()[k].pos as int].artifact;
        self.scorer.score_spec(art.bytecode->Some_0@, self.creation_observed(k, creation))
    }

    /// Score of the candidate at slot `k` when comparing deployed code.
    pub open spec fn dscore(self, k: int, runtime: Seq<u8>) -> int {
        let art = self.cat()[self.idx()[k].pos as int].artifact;
        self.scorer.score_spec(art.deployed_bytecode->Some_0@, runtime)
    }

    pub open spec fn phase_score(
        self,
        k: int,
        is_creation: bool,
        runtime: Seq<u8>,
        creation: Seq<u8>,
    ) -> int {
        if is_creation {
            self.cscore(k, creation)
        } else {
            self.dscore(k, runtime)
        }
    }

    /// One candidate considered: an exact match (score `0`) ends the scan at
    /// once; otherwise a strictly better score than any seen so far is
    /// recorded together with its slot.
    pub open spec fn scan_step(
        self,
        st: Scan,
        k: int,
        is_creation: bool,
        runtime: Seq<u8>,
        creation: Seq<u8>,
    ) -> Scan {
        match st {
            Scan::Found { .. } => st,
            Scan::Going { best, who } => {
                let sc = self.phase_score(k, is_creation, runtime, creation);
                if sc == 0 {
                    Scan::Found { k }
                } else if sc < best {
                    Scan::Going { best: sc, who: Some(k) }
                } else {
                    st
                }
            },
        }
    }

    /// The candidates at slots `lo..hi` considered in ascending order.
    pub open spec fn scan_range(
        self,
        lo: int,
        hi: int,
        st: Scan,
        is_creation: bool,
        runtime: Seq<u8>,
        creation: Seq<u8>,
    ) -> Scan
        decreases hi - lo,
    {
        if lo >= hi {
            st
        } else {
            self.scan_range(
                lo + 1,
                hi,
                self.scan_step(st, lo, is_creation, runtime, creation),
                is_creation,
                runtime,
                creation,
            )
        }
    }

    proof fn lemma_scan_snoc(
        self,
        lo: int,
        hi: int,
        st: Scan,
        is_creation: bool,
        runtime: Seq<u8>,
        creation: Seq<u8>,
    )
        requires
            lo <= hi,
        ensures
            self.scan_range(lo, hi + 1, st, is_creation, runtime, creation) == self.scan_step(
                self.scan_range(lo, hi, st, is_creation, runtime, creation),
                hi,
                is_creation,
                runtime,
                creation,
            ),
        decreases hi - lo,
    {
        if lo < hi {
            self.lemma_scan_snoc(
                lo + 1,
                hi,
                self.scan_step(st, lo, is_creation, runtime, creation),
                is_creation,
                runtime,
                creation,
            );
        } else {
            let stepped = self.scan_step(st, lo, is_creation, runtime, creation);
            assert(self.scan_range(lo, hi + 1, st, is_creation, runtime, creation)
                == self.scan_range(lo + 1, hi + 1, stepped, is_creation, runtime, creation));
            assert(self.scan_range(lo + 1, hi + 1, stepped, is_creation, runtime, creation)
                == stepped);
        }
    }

    proof fn lemma_scan_found(
        self,
        lo: int,
        hi: int,
        st: Scan,
        is_creation: bool,
        runtime: Seq<u8>,
        creation: Seq<u8>,
    )
        requires
            lo <= hi,
            st is Found,
        ensures
            self.scan_range(lo, hi, st, is_creation, runtime, creation) == st,
        decreases hi - lo,
    {
        if lo < hi {
            self.lemma_scan_found(lo + 1, hi, st, is_creation, runtime, creation);
        }
    }

    proof fn lemma_scan_concat(
        self,
        lo: int,
        mid: int,
        hi: int,
        st: Scan,
        is_creation: bool,
        runtime: Seq<u8>,
        creation: Seq<u8>,
    )
        requires
            lo <= mid <= hi,
        ensures
            self.scan_range(lo, hi, st, is_creation, runtime, creation) == self.scan_range(
                mid,
                hi,
                self.scan_range(lo, mid, st, is_creation, runtime, creation),
                is_creation,
                runtime,
                creation,
            ),
        decreases mid - lo,
    {
        if lo < mid {
            self.lemma_scan_concat(
                lo + 1,
                mid,
                hi,
                self.scan_step(st, lo, is_creation, runtime, creation),
                is_creation,
                runtime,
                creation,
            );
        }
    }

    /// The windowed phases: first the candidates whose deployed length lies in
    /// `[len, len * 1.1]`, in ascending order, then those in `[len * 0.9, len)`,
    /// comparing creation code throughout.
    pub open spec fn scan_windows(self, runtime: Seq<u8>, creation: Seq<u8>) -> Scan {
        let len = runtime.len() as int;
        let st1 = self.scan_range(
            self.lb(len),
            self.lb(window_high(len) + 1),
            initial_scan(),
            true,
            runtime,
            creation,
        );
        self.scan_range(self.lb(window_low(len)), self.lb(len), st1, true, runtime, creation)
    }

    /// The full scan: the windowed phases, then — only when no windowed score
    /// beat the threshold — every indexed artifact compared by deployed code.
    pub open spec fn scan_full(self, runtime: Seq<u8>, creation: Seq<u8>) -> Scan {
        let st2 = self.scan_windows(runtime, creation);
        match st2 {
            Scan::Found { .. } => st2,
            Scan::Going { best, .. } => if best >= MATCH_THRESHOLD as int {
                self.scan_range(0, self.idx().len() as int, st2, false, runtime, creation)
            } else {
                st2
            },
        }
    }

    /// The index slot reported for the given observed code: the first exact
    /// match in scan order, or else the slot with the lowest score provided
    /// that score beats the threshold.
    pub open spec fn identified_slot(self, runtime: Seq<u8>, creation: Seq<u8>) -> Option<int> {
        match self.scan_full(runtime, creation) {
            Scan::Found { k } => Some(k),
            Scan::Going { best, who } => if best < MATCH_THRESHOLD as int {
                who
            } else {
                None
            },
        }
    }

    /// Compares one candidate, updating the running best score and slot, and
    /// reports whether it was an exact match.
    fn check_candidate(
        &self,
        k: usize,
        is_creation: bool,
        runtime_code: &[u8],
        creation_code: &[u8],
        min_score: &mut u64,
        min_score_at: &mut Option<usize>,
    ) -> (exact: bool)
        requires
            self.wf(),
            k < self.idx().len(),
        ensures
            ({
                let st0 = Scan::Going {
                    best: *old(min_score) as int,
                    who: slot_opt(*old(min_score_at)),
                };
                let st1 = self.scan_step(st0, k as int, is_creation, runtime_code@, creation_code@);
                &&& exact ==> st1 == (Scan::Found { k: k as int })
                &&& !exact ==> st1 == (Scan::Going {
                    best: *final(min_score) as int,
                    who: slot_opt(*final(min_score_at)),
                })
                &&& !exact ==> (*final(min_score_at) == *old(min_score_at) && *final(min_score)
                    == *old(min_score)) || (*final(min_score_at) == Some(k) && *final(min_score)
                    < *old(min_score))
            }),
    {
        proof {
            assert(self.entry_ok(k as int));
        }
        let e = self.ordered_ids[k];
        let entry = &self.known_contracts.entries[e.pos];
        let contract_bytecode: &Vec<u8> = if is_creation {
            entry.artifact.bytecode.as_ref().unwrap()
        } else {
            entry.artifact.deployed_bytecode.as_ref().unwrap()
        };
        let mut observed: &[u8] = if is_creation {
            creation_code
        } else {
            runtime_code
        };
        if is_creation && observed.len() > contract_bytecode.len() {
            match &entry.artifact.abi.constructor_params {
                Some(params) => {
                    if ctor_decode_ok(params, observed, contract_bytecode.len()) {
                        observed = vstd::slice::slice_subrange(observed, 0, contract_bytecode.len());
                    }
                },
                None => {},
            }
        }
        proof {
            if is_creation {
                assert(observed@ =~= self.creation_observed(k as int, creation_code@));
            }
        }
        let score = self.scorer.score(contract_bytecode.as_slice(), observed);
        if score == 0 {
            return true;
        }
        if score < *min_score {
            *min_score = score;
            *min_score_at = Some(k);
        }
        false
    }

    /// Clones the identifier and the ABI of the artifact at index slot `k`.
    fn clone_candidate(&self, k: usize) -> (r: (ArtifactId, Abi))
        requires
            self.wf(),
            k < self.idx().len(),
        ensures
            r.0@ == self.cat()[self.idx()[k as int].pos as int].id@,
            abi_view(r.1) == abi_view(self.cat()[self.idx()[k as int].pos as int].artifact.abi),
    {
        proof {
            assert(self.entry_ok(k as int));
        }
        let e = self.ordered_ids[k];
        let entry = &self.known_contracts.entries[e.pos];
        (entry.id.clone(), entry.artifact.abi.clone())
    }

    /// Identifies the artifact whose bytecode best matches the observed code,
    /// comparing creation code inside the length window first and falling back
    /// to deployed-code comparison over the whole index; a candidate is only
    /// reported when its score beats the match threshold.
    pub fn identify_code(&self, runtime_code: &[u8], creation_code: &[u8]) -> (r: Option<
        (ArtifactId, Abi),
    >)
        requires
            self.wf(),
        ensures
            ({
                let slot = self.identified_slot(runtime_code@, creation_code@);
                match r {
                    Some(found) => {
                        &&& slot is Some
                        &&& 0 <= slot->Some_0 < self.idx().len()
                        &&& found.0@ == self.cat()[self.idx()[slot->Some_0].pos as int].id@
                        &&& abi_view(found.1) == abi_view(
                            self.cat()[self.idx()[slot->Some_0].pos as int].artifact.abi,
                        )
                    },
                    None => slot is None,
                }
            }),
    {
        let ghost rt = runtime_code@;
        let ghost cr = creation_code@;
        let len = runtime_code.len();
        let ghost big_l = len as int;

        let mut min_score: u64 = u64::MAX;
        let mut min_score_at: Option<usize> = None;

        // Candidates with length in `[len, len * 1.1]`, starting at artifacts
        // with the same code length.
        let max_len: u128 = (len as u128) * 11 / 10;
        let same_length_idx = self.find_index(len);
        let ghost fwd_hi = self.lb(window_high(big_l) + 1);
        proof {
            lemma_window_around_len(big_l);
            lemma_lower_bound_props(self.idx(), big_l);
            lemma_lower_bound_props(self.idx(), window_high(big_l) + 1);
            lemma_lower_bound_monotone(self.idx(), big_l, window_high(big_l) + 1);
        }
        let n = self.ordered_ids.len();
        let mut i = same_length_idx;
        while i < n && self.ordered_ids[i].code_len as u128 <= max_len
            invariant
                self.wf(),
                n == self.idx().len(),
                rt == runtime_code@,
                cr == creation_code@,
                big_l == rt.len(),
                max_len as int == window_high(big_l),
                same_length_idx as int == self.lb(big_l),
                fwd_hi == self.lb(window_high(big_l) + 1),
                same_length_idx <= i <= n,
                i as int <= fwd_hi,
                forall|k: int|
                    fwd_hi <= k < n ==> (#[trigger] self.idx()[k].code_len) > window_high(big_l),
                min_score_at is None ==> min_score == u64::MAX,
                min_score_at is Some ==> min_score_at->Some_0 < n,
                (Scan::Going { best: min_score as int, who: slot_opt(min_score_at) })
                    == self.scan_range(self.lb(big_l), i as int, initial_scan(), true, rt, cr),
            decreases n - i,
        {
            let exact = self.check_candidate(
                i,
                true,
                runtime_code,
                creation_code,
                &mut min_score,
                &mut min_score_at,
            );
            proof {
                self.lemma_scan_snoc(self.lb(big_l), i as int, initial_scan(), true, rt, cr);
                assert((i as int) < fwd_hi);
            }
            if exact {
                proof {
                    let found = Scan::Found { k: i as int };
                    self.lemma_scan_concat(
                        self.lb(big_l),
                        i as int + 1,
                        fwd_hi,
                        initial_scan(),
                        true,
                        rt,
                        cr,
                    );
                    self.lemma_scan_found(i as int + 1, fwd_hi, found, true, rt, cr);
                    lemma_lower_bound_monotone(self.idx(), window_low(big_l), big_l);
                    self.lemma_scan_found(
                        self.lb(window_low(big_l)),
                        self.lb(big_l),
                        found,
                        true,
                        rt,
                        cr,
                    );
                    assert(self.scan_full(rt, cr) == found);
                }
                let found_pair = self.clone_candidate(i);
                return Some(found_pair);
            }
            i += 1;
        }
        proof {
            if i < n {
                assert(self.idx()[i as int].code_len > window_high(big_l));
                if (i as int) < fwd_hi {
                    assert(self.idx()[i as int].code_len <= window_high(big_l));
                }
            }
            assert(i as int == fwd_hi);
        }
        let ghost st1 = self.scan_range(self.lb(big_l), fwd_hi, initial_scan(), true, rt, cr);

        // The remaining candidates, with length in `[len * 0.9, len)`.
        let min_len: usize = ((len as u128) * 9 / 10) as usize;
        proof {
            assert(min_len as int == window_low(big_l));
        }
        let back_lo = self.find_index(min_len);
        proof {
            lemma_lower_bound_monotone(self.idx(), window_low(big_l), big_l);
            lemma_lower_bound_props(self.idx(), window_low(big_l));
        }
        let mut b = back_lo;
        while b < same_length_idx
            invariant
                self.wf(),
                n == self.idx().len(),
                rt == runtime_code@,
                cr == creation_code@,
                big_l == rt.len(),
                same_length_idx as int == self.lb(big_l),
                same_length_idx <= n,
                back_lo as int == self.lb(window_low(big_l)),
                back_lo <= b <= same_length_idx,
                st1 == self.scan_range(
                    self.lb(big_l),
                    self.lb(window_high(big_l) + 1),
                    initial_scan(),
                    true,
                    rt,
                    cr,
                ),
                min_score_at is None ==> min_score == u64::MAX,
                min_score_at is Some ==> min_score_at->Some_0 < n,
                (Scan::Going { best: min_score as int, who: slot_opt(min_score_at) })
                    == self.scan_range(self.lb(window_low(big_l)), b as int, st1, true, rt, cr),
            decreases same_length_idx - b,
        {
            let exact = self.check_candidate(
                b,
                true,
                runtime_code,
                creation_code,
                &mut min_score,
                &mut min_score_at,
            );
            proof {
                self.lemma_scan_snoc(self.lb(window_low(big_l)), b as int, st1, true, rt, cr);
            }
            if exact {
                proof {
                    let found = Scan::Found { k: b as int };
                    self.lemma_scan_concat(
                        self.lb(window_low(big_l)),
                        b as int + 1,
                        self.lb(big_l),
                        st1,
                        true,
                        rt,
                        cr,
                    );
                    self.lemma_scan_found(b as int + 1, self.lb(big_l), found, true, rt, cr);
                    assert(self.scan_full(rt, cr) == found);
                }
                let found_pair = self.clone_candidate(b);
                return Some(found_pair);
            }
            b += 1;
        }
        let ghost st2 = self.scan_range(
            self.lb(window_low(big_l)),
            self.lb(big_l),
            st1,
            true,
            rt,
            cr,
        );
        proof {
            assert(self.scan_windows(rt, cr) == st2);
            assert(st2 == Scan::Going { best: min_score as int, who: slot_opt(min_score_at) });
        }

        // Fall back to comparing deployed code when no windowed score beat the
        // threshold.
        if min_score >= MATCH_THRESHOLD {
            let mut f: usize = 0;
            while f < n
                invariant
                    self.wf(),
                    n == self.idx().len(),
                    rt == runtime_code@,
                    cr == creation_code@,
                    big_l == rt.len(),
                    f <= n,
                    self.scan_windows(rt, cr) == st2,
                    st2 matches Scan::Going { best, who } && best >= MATCH_THRESHOLD as int,
                    min_score_at is None ==> min_score == u64::MAX,
                    min_score_at is Some ==> min_score_at->Some_0 < n,
                    (Scan::Going { best: min_score as int, who: slot_opt(min_score_at) })
                        == self.scan_range(0, f as int, st2, false, rt, cr),
                decreases n - f,
            {
                let exact = self.check_candidate(
                    f,
                    false,
                    runtime_code,
                    creation_code,
                    &mut min_score,
                    &mut min_score_at,
                );
                proof {
                    self.lemma_scan_snoc(0, f as int, st2, false, rt, cr);
                }
                if exact {
                    proof {
                        let found = Scan::Found { k: f as int };
                        self.lemma_scan_concat(0, f as int + 1, n as int, st2, false, rt, cr);
                        self.lemma_scan_found(f as int + 1, n as int, found, false, rt, cr);
                        assert(self.scan_full(rt, cr) == found);
                    }
                    let found_pair = self.clone_candidate(f);
                    return Some(found_pair);
                }
                f += 1;
            }
            proof {
                assert(self.scan_full(rt, cr) == Scan::Going {
                    best: min_score as int,
                    who: slot_opt(min_score_at),
                });
            }
        } else {
            proof {
                assert(self.scan_full(rt, cr) == st2);
            }
        }

        // The diff score can be unreliable on small contracts, so a relatively
        // high threshold keeps precision over recall.
        if min_score < MATCH_THRESHOLD {
            match min_score_at {
                Some(kk) => {
                    let found_pair = self.clone_candidate(kk);
                    Some(found_pair)
                },
                None => {
                    proof {
                        assert(false);
                    }
                    None
                },
            }
        } else {
            None
        }
    }

    /// Result record produced for one observation, if any: an observation
    /// resolves only when both its runtime and its creation code are present
    /// and some artifact matched them confidently.
    pub open spec fn entry_identity(self, e: AddressEntry) -> Option<AddressIdentityView> {
        match (e.runtime_code, e.creation_code) {
            (Some(rt), Some(cr)) => match self.identified_slot(rt@, cr@) {
                Some(k) => {
                    let p = self.idx()[k].pos as int;
                    Some(
                        AddressIdentityView {
                            address: e.address@,
                            contract: Some(identifier_of(self.cat()[p].id@)),
                            label: Some(self.cat()[p].id@.name),
                            abi: Some(abi_view(self.cat()[p].artifact.abi)),
                            artifact_id: Some(self.cat()[p].id@),
                        },
                    )
                },
                None => None,
            },
            _ => None,
        }
    }

    /// The identities reported for a stream of observations: one record per
    /// resolved observation, in input order; unresolved observations leave no
    /// record behind.
    pub open spec fn identify_all(self, inputs: Seq<AddressEntry>) -> Seq<AddressIdentityView>
        decreases inputs.len(),
    {
        if inputs.len() == 0 {
            Seq::empty()
        } else {
            self.identify_all(inputs.drop_last()) + match self.entry_identity(inputs.last()) {
                Some(v) => seq![v],
                None => Seq::empty(),
            }
        }
    }

    /// Identifies every observed address that carries both runtime and
    /// creation code; addresses with missing code, or for which no artifact
    /// matched confidently, are omitted from the output.
    pub fn identify_addresses(&self, addresses: &Vec<AddressEntry>) -> (r: Vec<AddressIdentity>)
        requires
            self.wf(),
        ensures
            r.deep_view() == self.identify_all(addresses@),
    {
        let mut out: Vec<AddressIdentity> = Vec::new();
        proof {
            assert(out.deep_view() =~= self.identify_all(addresses@.take(0)));
        }
        let mut i: usize = 0;
        while i < addresses.len()
            invariant
                self.wf(),
                i <= addresses@.len(),
                out.deep_view() == self.identify_all(addresses@.take(i as int)),
            decreases addresses@.len() - i,
        {
            let ghost prefix = addresses@.take(i as int);
            let ghost out_before = out.deep_view();
            let e = &addresses[i];
            match (&e.runtime_code, &e.creation_code) {
                (Some(rt), Some(cr)) => {
                    match self.identify_code(rt.as_slice(), cr.as_slice()) {
                        Some(found) => {
                            let (id, abi) = found;
                            let contract = id.identifier();
                            let label = id.name.clone();
                            out.push(
                                AddressIdentity {
                                    address: e.address.clone(),
                                    contract: Some(contract),
                                    label: Some(label),
                                    abi: Some(abi),
                                    artifact_id: Some(id),
                                },
                            );
                            proof {
                                let v = self.entry_identity(addresses@[i as int])->Some_0;
                                assert(out@.last().deep_view() == v);
                                assert(out.deep_view() =~= out_before.push(v));
                            }
                        },
                        None => {},
                    }
                },
                _ => {},
            }
            proof {
                assert(addresses@.take(i as int + 1).drop_last() =~= prefix);
                assert(addresses@.take(i as int + 1).last() == addresses@[i as int]);
                assert(out.deep_view() =~= self.identify_all(addresses@.take(i as int + 1)));
            }
            i += 1;
        }
        proof {
            assert(addresses@.take(addresses@.len() as int) =~= addresses@);
        }
        out
    }

    proof fn lemma_scan_bounded_below(
        self,
        lo: int,
        hi: int,
        best: int,
        who: Option<int>,
        is_creation: bool,
        runtime: Seq<u8>,
        creation: Seq<u8>,
        t: int,
    )
        requires
            lo <= hi,
            t > 0,
            best >= t,
            forall|k: int|
                lo <= k < hi ==> #[trigger] self.phase_score(k, is_creation, runtime, creation)
                    >= t,
        ensures
            self.scan_range(
                lo,
                hi,
                Scan::Going { best, who },
                is_creation,
                runtime,
                creation,
            ) matches Scan::Going { best: b2, who: _ } && b2 >= t,
        decreases hi - lo,
    {
        if lo < hi {
            let st1 = self.scan_step(
                Scan::Going { best, who },
                lo,
                is_creation,
                runtime,
                creation,
            );
            match st1 {
                Scan::Going { best: b1, who: w1 } => {
                    self.lemma_scan_bounded_below(
                        lo + 1,
                        hi,
                        b1,
                        w1,
                        is_creation,
                        runtime,
                        creation,
                        t,
                    );
                },
                Scan::Found { .. } => {
                    assert(false);
                },
            }
        }
    }

    proof fn lemma_scan_first_zero(
        self,
        lo: int,
        hi: int,
        best: int,
        who: Option<int>,
        is_creation: bool,
        runtime: Seq<u8>,
        creation: Seq<u8>,
        k0: int,
    )
        requires
            lo <= k0 < hi,
            forall|k: int|
                lo <= k < k0 ==> #[trigger] self.phase_score(k, is_creation, runtime, creation)
                    != 0,
            self.phase_score(k0, is_creation, runtime, creation) == 0,
        ensures
            self.scan_range(lo, hi, Scan::Going { best, who }, is_creation, runtime, creation)
                == (Scan::Found { k: k0 }),
        decreases k0 - lo,
    {
        let st1 = self.scan_step(Scan::Going { best, who }, lo, is_creation, runtime, creation);
        if lo == k0 {
            assert(st1 == (Scan::Found { k: k0 }));
            self.lemma_scan_found(lo + 1, hi, st1, is_creation, runtime, creation);
        } else {
            match st1 {
                Scan::Going { best: b1, who: w1 } => {
                    self.lemma_scan_first_zero(
                        lo + 1,
                        hi,
                        b1,
                        w1,
                        is_creation,
                        runtime,
                        creation,
                        k0,
                    );
                },
                Scan::Found { .. } => {
                    assert(false);
                },
            }
        }
    }

    /// Window law: the forward pass reaches a candidate exactly when its
    /// deployed length lies in `[len, len * 1.1]`, and the backward pass
    /// exactly when it lies in `[len * 0.9, len)`; every other candidate is
    /// reachable only through the full fallback scan.
    pub proof fn lemma_window_correctness(self, len: int, k: int)
        requires
            self.wf(),
            0 <= len,
            0 <= k < self.idx().len(),
        ensures
            (self.lb(len) <= k < self.lb(window_high(len) + 1)) <==> (len
                <= self.idx()[k].code_len <= window_high(len)),
            (self.lb(window_low(len)) <= k < self.lb(len)) <==> (window_low(len)
                <= self.idx()[k].code_len < len),
    {
        lemma_window_around_len(len);
        lemma_lower_bound_props(self.idx(), len);
        lemma_lower_bound_props(self.idx(), window_low(len));
        lemma_lower_bound_props(self.idx(), window_high(len) + 1);
    }

    /// Threshold law: when every creation-code score inside the length window
    /// and every deployed-code score is at or above the match threshold — that
    /// is, the best score reachable in any phase is at least the threshold —
    /// identification reports no artifact.
    pub proof fn lemma_threshold_rejects(self, runtime: Seq<u8>, creation: Seq<u8>)
        requires
            self.wf(),
            forall|k: int|
                0 <= k < self.idx().len() && window_low(runtime.len() as int) <= (
                #[trigger] self.idx()[k].code_len) <= window_high(runtime.len() as int)
                    ==> self.cscore(k, creation) >= MATCH_THRESHOLD as int,
            forall|k: int|
                0 <= k < self.idx().len() ==> #[trigger] self.dscore(k, runtime)
                    >= MATCH_THRESHOLD as int,
        ensures
            self.identified_slot(runtime, creation) is None,
    {
        let len = runtime.len() as int;
        let t = MATCH_THRESHOLD as int;
        lemma_window_around_len(len);
        lemma_lower_bound_props(self.idx(), len);
        lemma_lower_bound_props(self.idx(), window_low(len));
        lemma_lower_bound_props(self.idx(), window_high(len) + 1);
        lemma_lower_bound_monotone(self.idx(), window_low(len), len);
        lemma_lower_bound_monotone(self.idx(), len, window_high(len) + 1);
        assert forall|k: int| self.lb(len) <= k < self.lb(window_high(len) + 1) implies
            #[trigger] self.phase_score(k, true, runtime, creation) >= t by {
            assert(len <= self.idx()[k].code_len <= window_high(len));
        }
        self.lemma_scan_bounded_below(
            self.lb(len),
            self.lb(window_high(len) + 1),
            u64::MAX as int,
            None,
            true,
            runtime,
            creation,
            t,
        );
        let st1 = self.scan_range(
            self.lb(len),
            self.lb(window_high(len) + 1),
            initial_scan(),
            true,
            runtime,
            creation,
        );
        assert forall|k: int| self.lb(window_low(len)) <= k < self.lb(len) implies
            #[trigger] self.phase_score(k, true, runtime, creation) >= t by {
            assert(window_low(len) <= self.idx()[k].code_len < len);
        }
        match st1 {
            Scan::Going { best: b1, who: w1 } => {
                self.lemma_scan_bounded_below(
                    self.lb(window_low(len)),
                    self.lb(len),
                    b1,
                    w1,
                    true,
                    runtime,
                    creation,
                    t,
                );
                let st2 = self.scan_windows(runtime, creation);
                assert forall|k: int| 0 <= k < self.idx().len() as int implies
                    #[trigger] self.phase_score(k, false, runtime, creation) >= t by {
                    assert(self.dscore(k, runtime) >= t);
                }
                match st2 {
                    Scan::Going { best: b2, who: w2 } => {
                        self.lemma_scan_bounded_below(
                            0,
                            self.idx().len() as int,
                            b2,
                            w2,
                            false,
                            runtime,
                            creation,
                            t,
                        );
                    },
                    Scan::Found { .. } => {
                        assert(false);
                    },
                }
            },
            Scan::Found { .. } => {
                assert(false);
            },
        }
    }

    /// Exact-match priority law: when no windowed creation-code comparison
    /// beats the threshold, an artifact whose stored deployed bytecode is
    /// byte-identical to the observed runtime code is still reported through
    /// the deployed-code fallback — the first such artifact in index order.
    pub proof fn lemma_exact_match_priority(
        self,
        runtime: Seq<u8>,
        creation: Seq<u8>,
        k0: int,
    )
        requires
            self.wf(),
            forall|k: int|
                0 <= k < self.idx().len() && window_low(runtime.len() as int) <= (
                #[trigger] self.idx()[k].code_len) <= window_high(runtime.len() as int)
                    ==> self.cscore(k, creation) >= MATCH_THRESHOLD as int,
            0 <= k0 < self.idx().len(),
            self.cat()[self.idx()[k0].pos as int].artifact.deployed_bytecode->Some_0@ == runtime,
            forall|k: int| 0 <= k < k0 ==> #[trigger] self.dscore(k, runtime) != 0,
        ensures
            self.identified_slot(runtime, creation) == Some(k0),
    {
        let len = runtime.len() as int;
        let t = MATCH_THRESHOLD as int;
        self.scorer.lemma_score_properties(
            self.cat()[self.idx()[k0].pos as int].artifact.deployed_bytecode->Some_0@,
            runtime,
        );
        assert(self.dscore(k0, runtime) == 0);
        lemma_window_around_len(len);
        lemma_lower_bound_props(self.idx(), len);
        lemma_lower_bound_props(self.idx(), window_low(len));
        lemma_lower_bound_props(self.idx(), window_high(len) + 1);
        lemma_lower_bound_monotone(self.idx(), window_low(len), len);
        lemma_lower_bound_monotone(self.idx(), len, window_high(len) + 1);
        assert forall|k: int| self.lb(len) <= k < self.lb(window_high(len) + 1) implies
            #[trigger] self.phase_score(k, true, runtime, creation) >= t by {
            assert(len <= self.idx()[k].code_len <= window_high(len));
        }
        self.lemma_scan_bounded_below(
            self.lb(len),
            self.lb(window_high(len) + 1),
            u64::MAX as int,
            None,
            true,
            runtime,
            creation,
            t,
        );
        let st1 = self.scan_range(
            self.lb(len),
            self.lb(window_high(len) + 1),
            initial_scan(),
            true,
            runtime,
            creation,
        );
        assert forall|k: int| self.lb(window_low(len)) <= k < self.lb(len) implies
            #[trigger] self.phase_score(k, true, runtime, creation) >= t by {
            assert(window_low(len) <= self.idx()[k].code_len < len);
        }
        match st1 {
            Scan::Going { best: b1, who: w1 } => {
                self.lemma_scan_bounded_below(
                    self.lb(window_low(len)),
                    self.lb(len),
                    b1,
                    w1,
                    true,
                    runtime,
                    creation,
                    t,
                );
                let st2 = self.scan_windows(runtime, creation);
                assert forall|k: int| 0 <= k < k0 implies #[trigger] self.phase_score(
                    k,
                    false,
                    runtime,
                    creation,
                ) != 0 by {
                    assert(self.dscore(k, runtime) != 0);
                }
                match st2 {
                    Scan::Going { best: b2, who: w2 } => {
                        self.lemma_scan_first_zero(
                            0,
                            self.idx().len() as int,
                            b2,
                            w2,
                            false,
                            runtime,
                            creation,
                            k0,
                        );
                    },
                    Scan::Found { .. } => {
                        assert(false);
                    },
                }
            },
            Scan::Found { .. } => {
                assert(false);
            },
        }
    }

    /// Leftmost-duplicate law: among index entries that share one deployed
    /// length, the candidate search starts at the leftmost; `find_index`
    /// returns `lb`, which is at or before every slot of that length and
    /// itself carries that length.
    pub proof fn lemma_find_index_leftmost(self, len: int, p: int)
        requires
            self.wf(),
            0 <= p < self.idx().len(),
            self.idx()[p].code_len == len,
        ensures
            self.lb(len) <= p,
            self.idx()[self.lb(len)].code_len == len,
    {
        lemma_lower_bound_props(self.idx(), len);
        if p < self.lb(len) {
            assert(self.idx()[p].code_len < len);
        }
        assert(self.idx()[self.lb(len)].code_len >= len);
        assert(self.idx()[self.lb(len)].code_len <= self.idx()[p].code_len);
    }

    /// Determinism law: the reported identities are a mathematical function of
    /// the identifier's state and the observation stream, so identifying the
    /// same stream twice over the same catalogue yields identical results —
    /// `identify_addresses` guarantees its output equals `identify_all` of its
    /// input.
    pub proof fn lemma_identification_deterministic(
        self,
        inputs: Seq<AddressEntry>,
        r1: Seq<AddressIdentityView>,
        r2: Seq<AddressIdentityView>,
    )
        requires
            r1 == self.identify_all(inputs),
            r2 == self.identify_all(inputs),
        ensures
            r1 == r2,
    {
    }
}

} // verus!
