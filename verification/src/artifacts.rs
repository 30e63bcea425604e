use vstd::prelude::*;

verus! {

/// Identifier of one compiled contract artifact: the contract name together
/// with the source path it was compiled from.
pub struct ArtifactId {
    pub name: String,
    pub source: String,
}

/// Mathematical value of an [`ArtifactId`]: both strings as character sequences.
pub ghost struct ArtifactIdView {
    pub name: Seq<char>,
    pub source: Seq<char>,
}

impl View for ArtifactId {
    type V = ArtifactIdView;

    open spec fn view(&self) -> ArtifactIdView {
        ArtifactIdView { name: self.name@, source: self.source@ }
    }
}

/// The identifier string of an artifact: `source:name`.
pub open spec fn identifier_of(id: ArtifactIdView) -> Seq<char> {
    id.source + seq![':'] + id.name
}

/// Appends a string slice to a string.
///
/// Relies on `String::push_str` from std: it appends the given string slice
/// onto the end of this `String`.
#[verifier::external_body]
fn push_str(s: &mut String, t: &str)
    ensures
        final(s)@ == old(s)@ + t@,
{
    s.push_str(t)
}

impl ArtifactId {
    /// Returns the canonical `source:name` identifier of this artifact.
    pub fn identifier(&self) -> (r: String)
        ensures
            r@ == identifier_of(self@),
    {
        let mut s = self.source.clone();
        push_str(&mut s, ":");
        push_str(&mut s, self.name.as_str());
        proof {
            reveal_strlit(":");
            assert(s@ =~= identifier_of(self@));
        }
        s
    }
}

impl Clone for ArtifactId {
    fn clone(&self) -> (r: Self)
        ensures
            r@ == self@,
    {
        ArtifactId { name: self.name.clone(), source: self.source.clone() }
    }
}

/// The part of a contract ABI that identification reads: the canonical
/// Solidity types of the constructor's parameters, or `None` when the ABI
/// declares no constructor.
pub struct Abi {
    pub constructor_params: Option<Vec<String>>,
}

/// Mathematical value of an [`Abi`]: the constructor parameter types as
/// character sequences.
pub open spec fn abi_view(a: Abi) -> Option<Seq<Seq<char>>> {
    a.constructor_params.deep_view()
}

impl Clone for Abi {
    fn clone(&self) -> (r: Self)
        ensures
            abi_view(r) == abi_view(*self),
    {
        let params = match &self.constructor_params {
            Some(ps) => {
                let mut out: Vec<String> = Vec::new();
                let mut i: usize = 0;
                while i < ps.len()
                    invariant
                        i <= ps.len(),
                        out@.len() == i as int,
                        forall|j: int| 0 <= j < i ==> out@[j]@ == ps@[j]@,
                    decreases ps.len() - i,
                {
                    out.push(ps[i].clone());
                    i += 1;
                }
                proof {
                    assert(out.deep_view() =~= ps.deep_view());
                }
                Some(out)
            },
            None => None,
        };
        Abi { constructor_params: params }
    }
}

/// One compiled contract: its ABI, its creation bytecode and its deployed
/// (runtime) bytecode. Either bytecode may be absent, for example when only
/// part of the build output is available.
pub struct Artifact {
    pub abi: Abi,
    pub bytecode: Option<Vec<u8>>,
    pub deployed_bytecode: Option<Vec<u8>>,
}

/// One catalogue record: an artifact together with its identifier.
pub struct CatalogueEntry {
    pub id: ArtifactId,
    pub artifact: Artifact,
}

/// The artifact catalogue: a read-only collection of compiled contracts,
/// supplied fully built before identification starts.
pub struct Catalogue {
    pub entries: Vec<CatalogueEntry>,
}

impl Catalogue {
    /// An artifact can take part in identification only when both its creation
    /// and its deployed bytecode are known.
    pub open spec fn eligible(self, p: int) -> bool {
        &&& 0 <= p < self.entries@.len()
        &&& self.entries@[p].artifact.bytecode is Some
        &&& self.entries@[p].artifact.deployed_bytecode is Some
    }

    /// Creates an empty catalogue.
    pub fn new() -> (r: Catalogue)
        ensures
            r.entries@.len() == 0,
    {
        Catalogue { entries: Vec::new() }
    }

    /// Adds one artifact under the given identifier.
    pub fn push(&mut self, id: ArtifactId, artifact: Artifact)
        ensures
            final(self).entries@ == old(self).entries@.push(CatalogueEntry { id, artifact }),
    {
        self.entries.push(CatalogueEntry { id, artifact });
    }

    /// Number of artifacts in the catalogue.
    pub fn len(&self) -> (r: usize)
        ensures
            r == self.entries@.len(),
    {
        self.entries.len()
    }
}

/// Copies a byte vector.
pub fn clone_bytes(v: &Vec<u8>) -> (r: Vec<u8>)
    ensures
        r@ == v@,
{
    let mut out: Vec<u8> = Vec::new();
    let mut i: usize = 0;
    while i < v.len()
        invariant
            i <= v.len(),
            out@ =~= v@.subrange(0, i as int),
        decreases v.len() - i,
    {
        out.push(v[i]);
        i += 1;
    }
    proof {
        assert(out@ =~= v@);
    }
    out
}

} // verus!
