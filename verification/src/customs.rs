//! The custom-section registry: an insertion-ordered, heterogeneous-by-name
//! collection of opaque metadata payloads, keyed primarily by a synthetic
//! identifier and secondarily by declared name. Each entry also records the
//! deliveries of the code transform made to it during encoding.

use vstd::prelude::*;

verus! {

use vstd::string::StringSliceAdditionalSpecFns;
use vstd::string::StrSliceExecFns;

/// Identifier of a custom section within one module's registry. Identifiers
/// are never reused, even after a removal.
#[derive(Clone, Copy, Debug, PartialEq, Eq, Structural)]
pub struct CustomSectionId {
    pub index: usize,
}

/// An opaque byte-holder: the declared name of a section and its raw payload.
/// Unrecognized sections decoded from input are stored in this form, so no
/// information is lost even when the consumer cannot interpret them.
#[derive(Debug)]
pub struct RawCustomSection {
    pub name: Vec<u8>,
    pub data: Vec<u8>,
}

/// Mathematical content of a custom section: name bytes and payload bytes.
pub ghost struct CustomV {
    pub name: Seq<u8>,
    pub data: Seq<u8>,
}

impl View for RawCustomSection {
    type V = CustomV;

    open spec fn view(&self) -> CustomV {
        CustomV { name: self.name@, data: self.data@ }
    }
}

/// An ordered offset-remapping log produced during encoding: pairs of
/// (byte offset in the original input, byte offset in the fresh output),
/// one per re-encoded instruction that carried an original offset.
#[derive(Debug)]
pub struct CodeTransform {
    pub entries: Vec<(usize, usize)>,
}

impl View for CodeTransform {
    type V = Seq<(usize, usize)>;

    open spec fn view(&self) -> Seq<(usize, usize)> {
        self.entries@
    }
}

impl CodeTransform {
    /// Whether no pair was recorded.
    pub fn is_empty(&self) -> (r: bool)
        ensures
            r == (self@.len() == 0),
    {
        self.entries.len() == 0
    }

    /// The number of recorded pairs.
    pub fn len(&self) -> (r: usize)
        ensures
            r == self@.len(),
    {
        self.entries.len()
    }

    /// The pair at position `i`.
    pub fn get(&self, i: usize) -> (r: (usize, usize))
        requires
            i < self@.len(),
        ensures
            r == self@[i as int],
    {
        self.entries[i]
    }
}

/// One registry slot: the synthetic identifier, the stored section, and a
/// record of transform deliveries: how many times the encode hook ran for this
/// entry, and the last transform it received.
#[derive(Debug)]
pub struct CustomEntry {
    pub id: usize,
    pub section: RawCustomSection,
    pub hook_runs: u64,
    pub last_transform: Option<CodeTransform>,
}

/// Mathematical content of a registry slot.
pub ghost struct EntryV {
    pub id: int,
    pub section: CustomV,
    pub hook_runs: int,
    pub last_transform: Option<Seq<(usize, usize)>>,
}

impl View for CustomEntry {
    type V = EntryV;

    open spec fn view(&self) -> EntryV {
        EntryV {
            id: self.id as int,
            section: self.section@,
            hook_runs: self.hook_runs as int,
            last_transform: match self.last_transform {
                Some(ref t) => Some(t@),
                None => None,
            },
        }
    }
}

/// The first slot holding `id`, if any.
pub open spec fn find_id(s: Seq<EntryV>, id: int) -> Option<EntryV>
    decreases s.len(),
{
    if s.len() == 0 {
        None
    } else if s[0].id == id {
        Some(s[0])
    } else {
        find_id(s.skip(1), id)
    }
}

/// The position of the first slot whose section is named `n`, if any.
pub open spec fn find_name(s: Seq<EntryV>, n: Seq<u8>) -> Option<int>
    decreases s.len(),
{
    if s.len() == 0 {
        None
    } else if s[0].section.name == n {
        Some(0)
    } else {
        match find_name(s.skip(1), n) {
            Some(k) => Some(k + 1),
            None => None,
        }
    }
}

/// The sections of a registry in order, delivery records stripped.
pub open spec fn sections_of(s: Seq<EntryV>) -> Seq<CustomV> {
    s.map_values(|e: EntryV| e.section)
}

/// The insertion-ordered registry of custom sections.
#[derive(Debug)]
pub struct ModuleCustomSections {
    pub list: Vec<CustomEntry>,
    pub next_id: usize,
}

impl View for ModuleCustomSections {
    type V = Seq<EntryV>;

    open spec fn view(&self) -> Seq<EntryV> {
        self.list@.map_values(|e: CustomEntry| e@)
    }
}

impl ModuleCustomSections {
    /// Registry well-formedness: every stored identifier is below the next
    /// fresh one, so `add` always yields an identifier not yet in use.
    pub open spec fn wf(self) -> bool {
        forall|i: int| 0 <= i < self@.len() ==> (#[trigger] self@[i]).id < self.next_id as int
    }

    /// An empty registry.
    pub fn new() -> (r: ModuleCustomSections)
        ensures
            r.wf(),
            r@ =~= Seq::<EntryV>::empty(),
            r.next_id == 0,
    {
        ModuleCustomSections { list: Vec::new(), next_id: 0 }
    }

    /// The number of stored sections.
    pub fn len(&self) -> (r: usize)
        ensures
            r == self@.len(),
    {
        self.list.len()
    }

    /// Appends a section and returns its fresh identifier. Insertion order is
    /// preserved: the new entry comes after every existing one.
    pub fn add(&mut self, section: RawCustomSection) -> (r: CustomSectionId)
        requires
            old(self).wf(),
            old(self).next_id < usize::MAX,
        ensures
            final(self).wf(),
            r.index == old(self).next_id,
            final(self).next_id == old(self).next_id + 1,
            final(self)@ == old(self)@.push(
                EntryV {
                    id: old(self).next_id as int,
                    section: section@,
                    hook_runs: 0,
                    last_transform: None,
                },
            ),
            find_id(final(self)@, r.index as int) == Some(final(self)@.last()),
    {
        let id = CustomSectionId { index: self.next_id };
        let entry = CustomEntry { id: self.next_id, section, hook_runs: 0, last_transform: None };
        let ghost ev = entry@;
        self.list.push(entry);
        self.next_id = self.next_id + 1;
        proof {
            assert(final(self)@ =~= old(self)@.push(ev));
            lemma_find_id_fresh(old(self)@, ev);
        }
        id
    }

    /// Looks a section up by identifier.
    pub fn get(&self, id: CustomSectionId) -> (r: Option<&RawCustomSection>)
        ensures
            match r {
                Some(sec) => find_id(self@, id.index as int) matches Some(e) && e.section == sec@,
                None => find_id(self@, id.index as int) is None,
            },
    {
        proof {
            assert(self@.skip(0) =~= self@);
        }
        self.get_from(0, id)
    }

    /// Recursive search for `get`, from position `i` on.
    fn get_from(&self, i: usize, id: CustomSectionId) -> (r: Option<&RawCustomSection>)
        requires
            i <= self@.len(),
        ensures
            match r {
                Some(sec) => find_id(self@.skip(i as int), id.index as int) matches Some(e)
                    && e.section == sec@,
                None => find_id(self@.skip(i as int), id.index as int) is None,
            },
        decreases self@.len() - i,
{
        if i == self.list.len() {
            None
        } else {
            let ghost tail = self@.skip(i as int);
            assert(tail[0] == self@[i as int]);
            assert(tail.skip(1) =~= self@.skip(i + 1));
            if self.list[i].id == id.index {
                Some(&self.list[i].section)
            } else {
                self.get_from(i + 1, id)
            }
        }
    }

    /// Removes and returns the first section declared under `name`, as an
    /// opaque byte-holder; later entries keep their identifiers and order.
    pub fn remove_raw(&mut self, name: &str) -> (r: Option<RawCustomSection>)
        requires
            old(self).wf(),
        ensures
            final(self).wf(),
            final(self).next_id == old(self).next_id,
            match find_name(old(self)@, name.spec_bytes()) {
                Some(k) => r matches Some(sec) && sec@ == old(self)@[k].section && final(self)@
                    == old(self)@.remove(k),
                None => r is None && final(self)@ == old(self)@,
            },
    {
        let bytes = name.as_bytes_vec();
        match self.position_of_name(0, &bytes) {
            Some(k) => {
                proof {
                    lemma_find_name_skip0(self@, bytes@);
                }
                let entry = self.list.remove(k);
                proof {
                    assert(final(self)@ =~= old(self)@.remove(k as int));
                }
                Some(entry.section)
            },
            None => {
                proof {
                    lemma_find_name_skip0(self@, bytes@);
                }
                None
            },
        }
    }

    /// Recursive search for the first entry named `n`, from position `i` on.
    fn position_of_name(&self, i: usize, n: &Vec<u8>) -> (r: Option<usize>)
        requires
            i <= self@.len(),
        ensures
            match r {
                Some(k) => i <= k < self@.len() && find_name(self@.skip(i as int), n@) == Some(
                    k - i,
                ),
                None => find_name(self@.skip(i as int), n@) is None,
            },
        decreases self@.len() - i,
    {
        if i == self.list.len() {
            None
        } else {
            let ghost tail = self@.skip(i as int);
            assert(tail[0] == self@[i as int]);
            assert(tail.skip(1) =~= self@.skip(i + 1));
            if bytes_eq(&self.list[i].section.name, n) {
                Some(i)
            } else {
                match self.position_of_name(i + 1, n) {
                    Some(k) => Some(k),
                    None => None,
                }
            }
        }
    }

    /// The entries in insertion order: each identifier with a copy of its
    /// section.
    pub fn iter(&self) -> (r: Vec<(CustomSectionId, RawCustomSection)>)
        ensures
            r@.len() == self@.len(),
            forall|i: int|
                0 <= i < r@.len() ==> (#[trigger] r@[i]).0.index as int == self@[i].id
                    && r@[i].1@ == self@[i].section,
    {
        let mut out: Vec<(CustomSectionId, RawCustomSection)> = Vec::new();
        let mut i: usize = 0;
        while i < self.list.len()
            invariant
                i <= self@.len(),
                out@.len() == i as int,
                forall|j: int|
                    0 <= j < i as int ==> (#[trigger] out@[j]).0.index as int == self@[j].id
                        && out@[j].1@ == self@[j].section,
            decreases self@.len() - i,
        {
            let e = &self.list[i];
            let sec = RawCustomSection { name: copy_bytes(&e.section.name), data: copy_bytes(&e.section.data) };
            out.push((CustomSectionId { index: e.id }, sec));
            i = i + 1;
        }
        out
    }

    /// Whether every delivery counter can still be incremented.
    pub open spec fn hooks_headroom(self) -> bool {
        forall|i: int| 0 <= i < self@.len() ==> (#[trigger] self@[i]).hook_runs < u64::MAX as int
    }

    /// Runs the transform hook of every entry exactly once, in registry order:
    /// each entry records the delivered transform and counts the delivery.
    pub(crate) fn deliver_transform(&mut self, t: &CodeTransform)
        requires
            old(self).wf(),
            old(self).hooks_headroom(),
        ensures
            final(self).wf(),
            final(self).next_id == old(self).next_id,
            final(self)@.len() == old(self)@.len(),
            forall|i: int|
                0 <= i < old(self)@.len() ==> (#[trigger] final(self)@[i]).id == old(self)@[i].id
                    && final(self)@[i].section == old(self)@[i].section && final(self)@[i].hook_runs
                    == old(self)@[i].hook_runs + 1 && final(self)@[i].last_transform == Some(t@),
    {
        let n = self.list.len();
        let mut out: Vec<CustomEntry> = Vec::new();
        let mut i: usize = 0;
        while i < n
            invariant
                n == old(self)@.len(),
                self@ == old(self)@,
                self.next_id == old(self).next_id,
                old(self).hooks_headroom(),
                i <= n,
                out@.len() == i as int,
                forall|j: int|
                    0 <= j < i as int ==> (#[trigger] out@[j]@).id == old(self)@[j].id
                        && out@[j]@.section == old(self)@[j].section && out@[j]@.hook_runs == old(
                        self,
                    )@[j].hook_runs + 1 && out@[j]@.last_transform == Some(t@),
            decreases n - i,
        {
            let e = &self.list[i];
            proof {
                assert(self@[i as int].hook_runs < u64::MAX as int);
                assert(self@[i as int] == self.list@[i as int]@);
            }
            let fresh = CustomEntry {
                id: e.id,
                section: RawCustomSection {
                    name: copy_bytes(&e.section.name),
                    data: copy_bytes(&e.section.data),
                },
                hook_runs: e.hook_runs + 1,
                last_transform: Some(CodeTransform { entries: copy_pairs(&t.entries) }),
            };
            out.push(fresh);
            i = i + 1;
        }
        self.list = out;
    }

    /// How many times the encode hook has run for the entry with `id`.
    pub fn hook_runs(&self, id: CustomSectionId) -> (r: Option<u64>)
        ensures
            match r {
                Some(n) => find_id(self@, id.index as int) matches Some(e) && e.hook_runs == n
                    as int,
                None => find_id(self@, id.index as int) is None,
            },
    {
        proof {
            assert(self@.skip(0) =~= self@);
        }
        self.hook_runs_from(0, id)
    }

    /// Recursive search for `hook_runs`.
    fn hook_runs_from(&self, i: usize, id: CustomSectionId) -> (r: Option<u64>)
        requires
            i <= self@.len(),
        ensures
            match r {
                Some(n) => find_id(self@.skip(i as int), id.index as int) matches Some(e)
                    && e.hook_runs == n as int,
                None => find_id(self@.skip(i as int), id.index as int) is None,
            },
        decreases self@.len() - i,
    {
        if i == self.list.len() {
            None
        } else {
            let ghost tail = self@.skip(i as int);
            assert(tail[0] == self@[i as int]);
            assert(tail.skip(1) =~= self@.skip(i + 1));
            if self.list[i].id == id.index {
                Some(self.list[i].hook_runs)
            } else {
                self.hook_runs_from(i + 1, id)
            }
        }
    }

    /// The last transform delivered to the entry with `id`, copied out, or
    /// `None` when the entry does not exist or was never delivered one.
    pub fn last_transform(&self, id: CustomSectionId) -> (r: Option<CodeTransform>)
        ensures
            match r {
                Some(t) => find_id(self@, id.index as int) matches Some(e) && e.last_transform
                    == Some(t@),
                None => find_id(self@, id.index as int) matches Some(e) ==> e.last_transform
                    is None,
            },
    {
        proof {
            assert(self@.skip(0) =~= self@);
        }
        self.last_transform_from(0, id)
    }

    /// Recursive search for `last_transform`.
    fn last_transform_from(&self, i: usize, id: CustomSectionId) -> (r: Option<CodeTransform>)
        requires
            i <= self@.len(),
        ensures
            match r {
                Some(t) => find_id(self@.skip(i as int), id.index as int) matches Some(e)
                    && e.last_transform == Some(t@),
                None => find_id(self@.skip(i as int), id.index as int) matches Some(e)
                    ==> e.last_transform is None,
            },
        decreases self@.len() - i,
    {
        if i == self.list.len() {
            None
        } else {
            let ghost tail = self@.skip(i as int);
            assert(tail[0] == self@[i as int]);
            assert(tail.skip(1) =~= self@.skip(i + 1));
            if self.list[i].id == id.index {
                match &self.list[i].last_transform {
                    Some(t) => Some(CodeTransform { entries: copy_pairs(&t.entries) }),
                    None => None,
                }
            } else {
                self.last_transform_from(i + 1, id)
            }
        }
    }
}

/// A fresh identifier is found at the end after a push.
proof fn lemma_find_id_fresh(s: Seq<EntryV>, e: EntryV)
    requires
        forall|i: int| 0 <= i < s.len() ==> (#[trigger] s[i]).id < e.id,
    ensures
        find_id(s.push(e), e.id) == Some(e),
    decreases s.len(),
{
    if s.len() == 0 {
        assert(s.push(e)[0] == e);
    } else {
        assert(s.push(e)[0] == s[0]);
        assert(s.push(e).skip(1) =~= s.skip(1).push(e));
        lemma_find_id_fresh(s.skip(1), e);
    }
}

/// `skip(0)` is the sequence itself, specialized to name search.
proof fn lemma_find_name_skip0(s: Seq<EntryV>, n: Seq<u8>)
    ensures
        find_name(s.skip(0), n) == find_name(s, n),
{
    assert(s.skip(0) =~= s);
}

/// Byte-vector equality by content.
pub fn bytes_eq(a: &Vec<u8>, b: &Vec<u8>) -> (r: bool)
    ensures
        r == (a@ == b@),
{
    if a.len() != b.len() {
        proof {
            assert(a@.len() != b@.len());
        }
        return false;
    }
    let mut i: usize = 0;
    while i < a.len()
        invariant
            i <= a.len(),
            a@.len() == b@.len(),
            forall|j: int| 0 <= j < i as int ==> a@[j] == b@[j],
        decreases a.len() - i,
    {
        if a[i] != b[i] {
            return false;
        }
        i = i + 1;
    }
    proof {
        assert(a@ =~= b@);
    }
    true
}

/// A content-equal copy of a byte vector.
pub fn copy_bytes(v: &Vec<u8>) -> (r: Vec<u8>)
    ensures
        r@ == v@,
{
    let mut out: Vec<u8> = Vec::new();
    let mut i: usize = 0;
    while i < v.len()
        invariant
            i <= v.len(),
            out@ =~= v@.take(i as int),
        decreases v.len() - i,
    {
        out.push(v[i]);
        proof {
            assert(v@.take(i + 1) =~= v@.take(i as int).push(v@[i as int]));
        }
        i = i + 1;
    }
    proof {
        assert(v@.take(v@.len() as int) =~= v@);
    }
    out
}

/// A content-equal copy of a pair vector.
pub fn copy_pairs(v: &Vec<(usize, usize)>) -> (r: Vec<(usize, usize)>)
    ensures
        r@ == v@,
{
    let mut out: Vec<(usize, usize)> = Vec::new();
    let mut i: usize = 0;
    while i < v.len()
        invariant
            i <= v.len(),
            out@ =~= v@.take(i as int),
        decreases v.len() - i,
    {
        out.push(v[i]);
        proof {
            assert(v@.take(i + 1) =~= v@.take(i as int).push(v@[i as int]));
        }
        i = i + 1;
    }
    proof {
        assert(v@.take(v@.len() as int) =~= v@);
    }
    out
}

} // verus!
