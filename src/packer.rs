use vstd::prelude::*;
use crate::dom::{
    image_refs, lemma_lookup_push, lemma_rewrite_keeps_unreplaced, lookup, refs, rewrite, rewritten,
    same_tree, Node,
};
use crate::resource::{
    data_uri, data_uri_of, join_path, joined, last_component, last_component_of, parent_of,
    parent_path,
};

verus! {

/// What the probe `present` answered, or may answer, for the path `p`.
pub open spec fn probed<F: Fn(&str) -> bool>(present: F, p: Seq<char>, answer: bool) -> bool {
    exists|q: &str| q@ == p && #[trigger] present.ensures((q,), answer)
}

/// What the reader `read` handed back, or may hand back, for the path `p`.
pub open spec fn read_gave<R: Fn(&str) -> Option<Vec<u8>>>(
    read: R,
    p: Seq<char>,
    out: Option<Seq<u8>>,
) -> bool {
    exists|q: &str, o: Option<Vec<u8>>|
        q@ == p && #[trigger] read.ensures((q,), o) && match o {
            Some(b) => out == Some(b@),
            None => out is None,
        }
}

/// The references of `refs` whose outcome is `NotFound`, in order.
pub open spec fn missing(refs: Seq<Seq<char>>, outcomes: Seq<Resolution>) -> Seq<Seq<char>>
    decreases refs.len(),
{
    if refs.len() == 0 {
        Seq::empty()
    } else {
        let rest = missing(refs.drop_last(), outcomes.subrange(0, refs.len() - 1));
        if outcomes[refs.len() - 1] is NotFound {
            rest.push(refs.last())
        } else {
            rest
        }
    }
}

proof fn lemma_missing_all(refs: Seq<Seq<char>>, outcomes: Seq<Resolution>)
    requires
        outcomes.len() == refs.len(),
        forall|i: int| 0 <= i < refs.len() ==> #[trigger] outcomes[i] is NotFound,
    ensures
        missing(refs, outcomes) == refs,
    decreases refs.len(),
{
    if refs.len() > 0 {
        let n = refs.len() - 1;
        lemma_missing_all(refs.drop_last(), outcomes.subrange(0, n));
        assert(outcomes[n] is NotFound);
        assert(refs.drop_last().push(refs.last()) == refs);
    }
}

/// The embedded value of an outcome that was inlined.
pub open spec fn inlined_value(r: Resolution) -> Option<Seq<char>> {
    match r {
        Resolution::Inlined(v) => Some(v@),
        _ => None,
    }
}

/// The reference that a not-found warning names.
pub open spec fn not_found_ref(w: Warning) -> Option<Seq<char>> {
    match w {
        Warning::NotFound(x) => Some(x@),
        _ => None,
    }
}

/// A condition met while packing that does not stop the work.
#[derive(Debug, PartialEq, Eq)]
pub enum Warning {
    /// No search location holds the referenced image; the reference is kept.
    NotFound(String),
    /// The destination exists and overwriting is off; nothing was written.
    OutputExists(String),
    /// An element outside the HTML namespace; its subtree was left as it is.
    ForeignElement(String),
}

impl Warning {
    /// The diagnostic line for this warning.
    pub fn message(&self) -> (r: String)
        ensures
            match self {
                Warning::NotFound(s) => r@ == "not found: img src="@ + s@,
                Warning::OutputExists(d) => r@ == "output file already exists: "@ + d@
                    + ", use -w to overwrite it"@,
                Warning::ForeignElement(e) => r@ == "skipped foreign element: "@ + e@,
            },
    {
        match self {
            Warning::NotFound(s) => {
                let mut r = String::from_str("not found: img src=");
                r.append(s.as_str());
                r
            },
            Warning::OutputExists(d) => {
                let mut r = String::from_str("output file already exists: ");
                r.append(d.as_str());
                r.append(", use -w to overwrite it");
                r
            },
            Warning::ForeignElement(e) => {
                let mut r = String::from_str("skipped foreign element: ");
                r.append(e.as_str());
                r
            },
        }
    }
}

/// How one image reference was resolved.
#[derive(Debug, PartialEq, Eq)]
pub enum Resolution {
    /// Found and read; the embedded form of its contents.
    Inlined(String),
    /// Found, but it could not be read; the reference is kept.
    Unreadable,
    /// No search location holds it; the reference is kept.
    NotFound,
}

/// Packs HTML files: the output directory, the search paths for images, and
/// whether an existing output file is overwritten.
#[derive(Debug)]
pub struct Packer {
    input_path: String,
    outdir: String,
    search_paths: Vec<String>,
    overwrite: bool,
}

impl Packer {
    /// The directory of the file being packed, where images are looked up first.
    pub closed spec fn base_dir(&self) -> Seq<char> {
        self.input_path@
    }

    pub closed spec fn out_dir(&self) -> Seq<char> {
        self.outdir@
    }

    /// The further directories where images are looked up, in order.
    pub closed spec fn search(&self) -> Seq<Seq<char>> {
        self.search_paths@.map_values(|s: String| s@)
    }

    pub closed spec fn overwrites(&self) -> bool {
        self.overwrite
    }

    /// Every directory where an image is looked up, in the order of lookup.
    pub open spec fn dirs(&self) -> Seq<Seq<char>> {
        seq![self.base_dir()] + self.search()
    }

    /// The `k`-th path at which the reference `src` is looked up.
    pub open spec fn candidate(&self, src: Seq<char>, k: int) -> Seq<char> {
        joined(self.dirs()[k], src)
    }

    /// `src` was found at its `k`-th candidate and at none before.
    pub open spec fn found_at<F: Fn(&str) -> bool>(&self, src: Seq<char>, present: F, k: int) -> bool {
        &&& 0 <= k < self.dirs().len()
        &&& probed(present, self.candidate(src, k), true)
        &&& forall|j: int| 0 <= j < k ==> probed(present, #[trigger] self.candidate(src, j), false)
    }

    pub fn new(outdir: String, search_paths: Vec<String>, overwrite: bool) -> (r: Packer)
        ensures
            r.base_dir() == Seq::<char>::empty(),
            r.out_dir() == outdir@,
            r.search() == search_paths@.map_values(|s: String| s@),
            r.overwrites() == overwrite,
    {
        Packer { input_path: String::new(), outdir, search_paths, overwrite }
    }

    /// Makes the directory of `input` the base directory: its parent, or the
    /// empty (current) directory where it has none.
    pub fn set_input(&mut self, input: &str)
        ensures
            final(self).base_dir() == match parent_of(input@) {
                Some(p) => p,
                None => Seq::<char>::empty(),
            },
            final(self).out_dir() == old(self).out_dir(),
            final(self).search() == old(self).search(),
            final(self).overwrites() == old(self).overwrites(),
    {
        self.input_path = match parent_path(input) {
            Some(p) => p,
            None => String::new(),
        };
    }

    /// Looks up the reference `src` in the base directory, then in each search
    /// path in order, asking `present` of each joined path; the first that
    /// exists is returned.
    pub fn find_image<F: Fn(&str) -> bool>(&self, src: &str, present: &F) -> (r: Option<String>)
        requires
            forall|p: &str| present.requires((p,)),
        ensures
            match r {
                Some(path) => exists|k: int|
                    self.found_at(src@, *present, k) && path@ == #[trigger] self.candidate(src@, k),
                None => forall|j: int|
                    0 <= j < self.dirs().len() ==> probed(
                        *present,
                        #[trigger] self.candidate(src@, j),
                        false,
                    ),
            },
    {
        let first = join_path(self.input_path.as_str(), src);
        if present(first.as_str()) {
            assert(self.found_at(src@, *present, 0));
            return Some(first);
        }
        assert(probed(*present, self.candidate(src@, 0), false));
        let mut i: usize = 0;
        while i < self.search_paths.len()
            invariant
                i <= self.search_paths@.len(),
                forall|p: &str| present.requires((p,)),
                forall|j: int| 0 <= j <= i ==> probed(*present, #[trigger] self.candidate(src@, j), false),
            decreases self.search_paths@.len() - i,
        {
            let path = join_path(self.search_paths[i].as_str(), src);
            assert(self.dirs()[i + 1] == self.search_paths@[i as int]@);
            if present(path.as_str()) {
                assert(self.found_at(src@, *present, i + 1));
                return Some(path);
            }
            i += 1;
        }
        None
    }

    /// `value` is the embedded form of what `read` gave for the path at which
    /// `key` was found.
    pub open spec fn inlined_as<F: Fn(&str) -> bool, R: Fn(&str) -> Option<Vec<u8>>>(
        &self,
        present: F,
        read: R,
        key: Seq<char>,
        value: Seq<char>,
    ) -> bool {
        exists|k: int, b: Seq<u8>|
            self.found_at(key, present, k) && #[trigger] read_gave(read, self.candidate(key, k), Some(b))
                && value == data_uri_of(self.candidate(key, k), b)
    }

    /// `r` is a resolution of the reference `x` that agrees with what
    /// `present` and `read` answered.
    pub open spec fn resolves_as<F: Fn(&str) -> bool, R: Fn(&str) -> Option<Vec<u8>>>(
        &self,
        present: F,
        read: R,
        x: Seq<char>,
        r: Resolution,
    ) -> bool {
        match r {
            Resolution::NotFound => forall|j: int|
                0 <= j < self.dirs().len() ==> probed(present, #[trigger] self.candidate(x, j), false),
            Resolution::Unreadable => exists|k: int|
                #[trigger] self.found_at(x, present, k) && (read_gave(read, self.candidate(x, k), None)
                    || exists|b: Seq<u8>|
                    b.len() > isize::MAX && #[trigger] read_gave(read, self.candidate(x, k), Some(b))),
            Resolution::Inlined(v) => self.inlined_as(present, read, x, v@),
        }
    }

    /// How packing explains its result: `outcomes` resolves each reference of
    /// `refs` in turn, `table` holds the embedded value of each reference that
    /// was inlined and nothing else, `new` is `old` rewritten by `table`, and
    /// `warnings` names, in order, each reference that was not found.
    pub open spec fn explains<F: Fn(&str) -> bool, R: Fn(&str) -> Option<Vec<u8>>>(
        &self,
        present: F,
        read: R,
        old: Node,
        new: Node,
        table: Seq<(String, String)>,
        outcomes: Seq<Resolution>,
        warnings: Seq<Warning>,
    ) -> bool {
        let refs = refs(old);
        &&& outcomes.len() == refs.len()
        &&& forall|i: int|
            0 <= i < refs.len() ==> self.resolves_as(present, read, refs[i], #[trigger] outcomes[i])
        &&& forall|i: int|
            0 <= i < refs.len() && #[trigger] outcomes[i] is Inlined ==> lookup(table, refs[i]) is Some
        &&& forall|k: int|
            0 <= k < table.len() ==> exists|i: int|
                0 <= i < refs.len() && refs[i] == (#[trigger] table[k]).0@ && inlined_value(outcomes[i]) == Some(table[k].1@)
        &&& rewritten(old, new, table)
        &&& warnings.len() == missing(refs, outcomes).len()
        &&& forall|w: int|
            0 <= w < warnings.len() ==> not_found_ref(#[trigger] warnings[w]) == Some(missing(refs, outcomes)[w])
    }

    /// When no candidate path of any reference of a document is found, packing
    /// leaves the document exactly as it was and warns once for each reference,
    /// naming it, in document order.
    pub proof fn lemma_unresolved_kept_and_reported<F: Fn(&str) -> bool, R: Fn(&str) -> Option<Vec<u8>>>(
        &self,
        present: F,
        read: R,
        old: Node,
        new: Node,
        table: Seq<(String, String)>,
        outcomes: Seq<Resolution>,
        warnings: Seq<Warning>,
    )
        requires
            self.explains(present, read, old, new, table, outcomes, warnings),
            forall|i: int, j: int|
                0 <= i < refs(old).len() && 0 <= j < self.dirs().len() ==> !probed(
                    present,
                    #[trigger] self.candidate(refs(old)[i], j),
                    true,
                ),
        ensures
            same_tree(old, new),
            warnings.len() == refs(old).len(),
            forall|w: int|
                0 <= w < warnings.len() ==> not_found_ref(#[trigger] warnings[w]) == Some(refs(old)[w]),
    {
        let all = refs(old);
        assert forall|i: int| 0 <= i < all.len() implies #[trigger] outcomes[i] is NotFound by {
            assert(self.resolves_as(present, read, all[i], outcomes[i]));
            if outcomes[i] is Unreadable {
                let k = choose|k: int| #[trigger] self.found_at(all[i], present, k);
                assert(probed(present, self.candidate(all[i], k), true));
            } else if outcomes[i] is Inlined {
                let v = outcomes[i]->Inlined_0;
                assert(self.inlined_as(present, read, all[i], v@));
                let (k, b) = choose|k: int, b: Seq<u8>|
                    self.found_at(all[i], present, k) && #[trigger] read_gave(
                        read,
                        self.candidate(all[i], k),
                        Some(b),
                    ) && v@ == data_uri_of(self.candidate(all[i], k), b);
                assert(probed(present, self.candidate(all[i], k), true));
            }
        }
        assert(table.len() == 0) by {
            if table.len() > 0 {
                let i = choose|i: int|
                    0 <= i < all.len() && all[i] == (#[trigger] table[0]).0@
                        && inlined_value(outcomes[i]) == Some(table[0].1@);
                assert(outcomes[i] is NotFound);
            }
        }
        assert forall|x: Seq<char>| #[trigger] all.contains(x) implies lookup(table, x) is None by {}
        lemma_rewrite_keeps_unreplaced(old, new, table);
        lemma_missing_all(all, outcomes);
    }

    /// Resolves one image reference: finds it as `find_image` does, reads it
    /// with `read`, and embeds what was read. A resource that cannot be read,
    /// or is too large to encode, is reported as unreadable.
    pub fn resolve<F: Fn(&str) -> bool, R: Fn(&str) -> Option<Vec<u8>>>(
        &self,
        reference: &str,
        present: &F,
        read: &R,
    ) -> (r: Resolution)
        requires
            forall|p: &str| present.requires((p,)),
            forall|p: &str| read.requires((p,)),
        ensures
            self.resolves_as(*present, *read, reference@, r),
    {
        match self.find_image(reference, present) {
            None => {
                assert(forall|j: int|
                    0 <= j < self.dirs().len() ==> probed(
                        *present,
                        #[trigger] self.candidate(reference@, j),
                        false,
                    ));
                Resolution::NotFound
            },
            Some(path) => {
                let ghost k = choose|k: int|
                    self.found_at(reference@, *present, k) && path@ == #[trigger] self.candidate(
                        reference@,
                        k,
                    );
                let p = path.as_str();
                let got = read(p);
                match got {
                    Some(bytes) => {
                        proof {
                            let o = Some(bytes);
                            assert(read.ensures((p,), o));
                            assert(read_gave(*read, self.candidate(reference@, k), Some(bytes@)));
                        }
                        if bytes.len() <= isize::MAX as usize {
                            let v = data_uri(p, bytes.as_slice());
                            assert(self.inlined_as(*present, *read, reference@, v@));
                            Resolution::Inlined(v)
                        } else {
                            Resolution::Unreadable
                        }
                    },
                    None => {
                        proof {
                            assert(read.ensures((p,), None::<Vec<u8>>));
                            assert(read_gave(*read, self.candidate(reference@, k), None));
                        }
                        Resolution::Unreadable
                    },
                }
            },
        }
    }

    /// Embeds, in place, every image of `doc` that can be resolved and read,
    /// in document order, and returns a warning for each reference that could
    /// not be found. References that were found but not read are kept without
    /// a warning.
    pub fn inline_images<F: Fn(&str) -> bool, R: Fn(&str) -> Option<Vec<u8>>>(
        &self,
        doc: &mut Node,
        present: &F,
        read: &R,
    ) -> (r: Vec<Warning>)
        requires
            forall|p: &str| present.requires((p,)),
            forall|p: &str| read.requires((p,)),
        ensures
            exists|t: Seq<(String, String)>, outcomes: Seq<Resolution>|
                #[trigger] self.explains(*present, *read, *old(doc), *final(doc), t, outcomes, r@),
    {
        let found = image_refs(doc);
        let ghost all = refs(*doc);
        let ghost mut outcomes: Seq<Resolution> = Seq::empty();
        let mut table: Vec<(String, String)> = Vec::new();
        let mut warnings: Vec<Warning> = Vec::new();
        let mut i: usize = 0;
        while i < found.len()
            invariant
                i <= found@.len(),
                found@.map_values(|s: String| s@) == all,
                all == refs(*old(doc)),
                *doc == *old(doc),
                forall|p: &str| present.requires((p,)),
                forall|p: &str| read.requires((p,)),
                outcomes.len() == i,
                forall|j: int|
                    0 <= j < i ==> self.resolves_as(*present, *read, all[j], #[trigger] outcomes[j]),
                forall|j: int|
                    0 <= j < i && #[trigger] outcomes[j] is Inlined ==> lookup(table@, all[j]) is Some,
                forall|k: int|
                    0 <= k < table@.len() ==> exists|j: int|
                        0 <= j < i && all[j] == (#[trigger] table@[k]).0@ && inlined_value(outcomes[j]) == Some(table@[k].1@),
                warnings@.len() == missing(all.subrange(0, i as int), outcomes).len(),
                forall|w: int|
                    0 <= w < warnings@.len() ==> not_found_ref(#[trigger] warnings@[w]) == Some(missing(all.subrange(0, i as int), outcomes)[w]),
            decreases found@.len() - i,
        {
            let reference = &found[i];
            assert(all[i as int] == reference@);
            let res = self.resolve(reference.as_str(), present, read);
            let ghost g = res;
            let ghost before = table@;
            let ghost prev = missing(all.subrange(0, i as int), outcomes);
            match res {
                Resolution::Inlined(v) => {
                    let e = (reference.clone(), v);
                    table.push(e);
                    proof {
                        assert forall|j: int|
                            0 <= j <= i && #[trigger] outcomes.push(g)[j] is Inlined implies lookup(
                            table@,
                            all[j],
                        ) is Some by {
                            lemma_lookup_push(before, e, all[j]);
                        }
                        assert forall|k: int| 0 <= k < table@.len() implies exists|j: int|
                            0 <= j < i + 1 && all[j] == (#[trigger] table@[k]).0@
                                && inlined_value(outcomes.push(g)[j]) == Some(table@[k].1@) by {
                            if k < before.len() {
                                assert(table@[k] == before[k]);
                                let j = choose|j: int|
                                    0 <= j < i && all[j] == before[k].0@ && inlined_value(outcomes[j]) == Some(before[k].1@);
                                assert(outcomes.push(g)[j] == outcomes[j]);
                            } else {
                                assert(outcomes.push(g)[i as int] == g);
                            }
                        }
                    }
                },
                Resolution::Unreadable => {},
                Resolution::NotFound => {
                    warnings.push(Warning::NotFound(reference.clone()));
                },
            }
            proof {
                let next = all.subrange(0, i as int + 1);
                assert(next.drop_last() == all.subrange(0, i as int));
                assert(outcomes.push(g).subrange(0, i as int) == outcomes);
                assert(next.last() == all[i as int]);
                outcomes = outcomes.push(g);
                assert(missing(next, outcomes) == if g is NotFound {
                    prev.push(all[i as int])
                } else {
                    prev
                });
            }
            i += 1;
        }
        rewrite(doc, &table);
        assert(all.subrange(0, all.len() as int) == all);
        assert(self.explains(*present, *read, *old(doc), *doc, table@, outcomes, warnings@));
        warnings
    }

    /// Where the output for `input` goes: its last component joined onto the
    /// output directory; `None` where `input` has no component.
    pub fn destination(&self, input: &str) -> (r: Option<String>)
        ensures
            match last_component_of(input@) {
                Some(c) => r matches Some(d) && d@ == joined(self.out_dir(), c),
                None => r is None,
            },
    {
        match last_component(input) {
            Some(name) => Some(join_path(self.outdir.as_str(), name.as_str())),
            None => None,
        }
    }

    /// Whether the output is written, given whether the destination already
    /// exists: an existing file is replaced only when overwriting is on.
    pub fn should_write(&self, destination_exists: bool) -> (r: bool)
        ensures
            r == (self.overwrites() || !destination_exists),
    {
        self.overwrite || !destination_exists
    }
}

} // verus!
