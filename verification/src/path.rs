//! Paths of files inside a torrent: lists of components that cannot leave the
//! directory they are resolved in.

use vstd::prelude::*;
use vstd::utf8::encode_utf8;

verus! {

/// Why a list of components is no torrent path.
#[derive(Clone, Copy, Debug, Eq, PartialEq, Structural)]
pub enum PathError {
    /// There is no component at all.
    Empty,
    /// A component is the empty string.
    EmptyComponent,
    /// A component is `.` or `..`.
    Traversal,
    /// A component holds a path separator or a NUL byte.
    Separator,
}

/// A non-empty list of plain file names.
#[derive(Debug, Eq, PartialEq, Hash)]
pub struct TorrentPath {
    components: Vec<String>,
}

/// Strings as sequences of characters.
pub open spec fn texts(strings: Seq<String>) -> Seq<Seq<char>> {
    Seq::new(strings.len(), |i: int| strings[i]@)
}

pub open spec fn is_separator(byte: u8) -> bool {
    byte == 0x2f || byte == 0x5c || byte == 0
}

/// What is wrong with one component, if anything.
pub open spec fn component_error(component: Seq<char>) -> Option<PathError> {
    let bytes = encode_utf8(component);
    if bytes.len() == 0 {
        Some(PathError::EmptyComponent)
    } else if bytes == seq![0x2eu8] || bytes == seq![0x2eu8, 0x2eu8] {
        Some(PathError::Traversal)
    } else if exists|i: int| 0 <= i < bytes.len() && is_separator(#[trigger] bytes[i]) {
        Some(PathError::Separator)
    } else {
        None
    }
}

/// What is wrong with the first bad component at or after `from`, if anything.
pub open spec fn components_error(components: Seq<Seq<char>>, from: int) -> Option<PathError>
    decreases components.len() - from,
{
    if from < 0 || from >= components.len() {
        None
    } else {
        match component_error(components[from]) {
            Some(error) => Some(error),
            None => components_error(components, from + 1),
        }
    }
}

/// What is wrong with a list of components, if anything.
pub open spec fn path_error(components: Seq<Seq<char>>) -> Option<PathError> {
    if components.len() == 0 {
        Some(PathError::Empty)
    } else {
        components_error(components, 0)
    }
}

fn check_component(component: &String) -> (result: Option<PathError>)
    ensures
        result == component_error(component@),
{
    let bytes = component.as_str().as_bytes();
    let ghost all = encode_utf8(component@);
    if bytes.len() == 0 {
        return Some(PathError::EmptyComponent);
    }
    if bytes.len() == 1 && bytes[0] == 0x2e {
        assert(all =~= seq![0x2eu8]);
        return Some(PathError::Traversal);
    }
    if bytes.len() == 2 && bytes[0] == 0x2e && bytes[1] == 0x2e {
        assert(all =~= seq![0x2eu8, 0x2eu8]);
        return Some(PathError::Traversal);
    }
    let mut i: usize = 0;
    while i < bytes.len()
        invariant
            bytes@ == all,
            all == encode_utf8(component@),
            all.len() > 0,
            all != seq![0x2eu8],
            all != seq![0x2eu8, 0x2eu8],
            i <= bytes@.len(),
            forall|k: int| 0 <= k < i ==> !is_separator(#[trigger] all[k]),
        decreases bytes@.len() - i,
    {
        if bytes[i] == 0x2f || bytes[i] == 0x5c || bytes[i] == 0 {
            assert(is_separator(all[i as int]));
            return Some(PathError::Separator);
        }
        i += 1;
    }
    None
}

impl View for TorrentPath {
    type V = Seq<Seq<char>>;

    closed spec fn view(&self) -> Seq<Seq<char>> {
        texts(self.components@)
    }
}

impl TorrentPath {
    /// A path in use is never empty, and every component names a plain file.
    pub open spec fn wf(&self) -> bool {
        path_error(self@) is None
    }

    pub fn new(components: Vec<String>) -> (result: Result<TorrentPath, PathError>)
        ensures
            match result {
                Ok(path) => path_error(texts(components@)) is None && path.wf() && path@ == texts(
                    components@,
                ),
                Err(error) => path_error(texts(components@)) == Some(error),
            },
    {
        if components.len() == 0 {
            return Err(PathError::Empty);
        }
        let ghost all = texts(components@);
        let mut i: usize = 0;
        while i < components.len()
            invariant
                all == texts(components@),
                i <= components@.len(),
                components_error(all, 0) == components_error(all, i as int),
            decreases components@.len() - i,
        {
            assert(all[i as int] == components@[i as int]@);
            if let Some(error) = check_component(&components[i]) {
                assert(components_error(all, i as int) == Some(error));
                return Err(error);
            }
            assert(components_error(all, i as int) == components_error(all, i + 1));
            i += 1;
        }
        Ok(TorrentPath { components })
    }

    pub fn components(&self) -> (components: &Vec<String>)
        ensures
            texts(components@) == self@,
    {
        &self.components
    }

    /// Whether two paths have the same components.
    pub fn same(&self, other: &TorrentPath) -> (result: bool)
        ensures
            result == (self@ == other@),
    {
        if self.components.len() != other.components.len() {
            assert(self@.len() != other@.len());
            return false;
        }
        let mut i: usize = 0;
        while i < self.components.len()
            invariant
                self.components@.len() == other.components@.len(),
                i <= self.components@.len(),
                forall|k: int| 0 <= k < i ==> self@[k] == other@[k],
            decreases self.components@.len() - i,
        {
            if self.components[i] != other.components[i] {
                assert(self@[i as int] != other@[i as int]);
                return false;
            }
            i += 1;
        }
        assert(self@ =~= other@);
        true
    }
}

impl Clone for TorrentPath {
    fn clone(&self) -> (copy: Self)
        ensures
            copy@ == self@,
    {
        TorrentPath { components: copy_strings(&self.components) }
    }
}

/// Copies of strings.
pub fn copy_strings(strings: &Vec<String>) -> (copy: Vec<String>)
    ensures
        texts(copy@) == texts(strings@),
        copy@.len() == strings@.len(),
{
    let mut copy: Vec<String> = Vec::new();
    let mut i: usize = 0;
    while i < strings.len()
        invariant
            i <= strings@.len(),
            copy@.len() == i,
            forall|k: int| 0 <= k < i ==> copy@[k]@ == strings@[k]@,
        decreases strings@.len() - i,
    {
        copy.push(strings[i].clone());
        i += 1;
    }
    assert(texts(copy@) =~= texts(strings@));
    copy
}

/// What `str::to_lowercase` makes of a string.
pub uninterp spec fn lowercase_of(text: Seq<char>) -> Seq<char>;

/// `str::to_lowercase`: the Unicode lowercase mapping, a function of the text alone.
#[verifier::external_body]
pub(crate) fn lowercase(text: &str) -> (lower: String)
    ensures
        lower@ == lowercase_of(text@),
{
    text.to_lowercase()
}

proof fn lemma_components(components: Seq<Seq<char>>, from: int)
    requires
        0 <= from <= components.len(),
    ensures
        components_error(components, from) is None <==> forall|i: int|
            from <= i < components.len() ==> component_error(#[trigger] components[i]) is None,
        forall|i: int|
            from <= i < components.len() && component_error(#[trigger] components[i]) is Some && (
            forall|k: int| from <= k < i ==> component_error(#[trigger] components[k]) is None)
                ==> components_error(components, from) == component_error(components[i]),
    decreases components.len() - from,
{
    if from < components.len() {
        lemma_components(components, from + 1);
        if component_error(components[from]) is None {
            assert forall|i: int|
                from <= i < components.len() && component_error(#[trigger] components[i]) is Some
                    && (forall|k: int|
                    from <= k < i ==> component_error(#[trigger] components[k]) is None) implies
                components_error(components, from) == component_error(components[i]) by {
                assert(i > from);
            }
        }
    }
}

/// A list of components is a path exactly if it is not empty and every
/// component is a plain name: it has bytes, is neither `.` nor `..`, and holds
/// no slash, no backslash and no NUL.
pub proof fn law_path_is_plain_names(components: Seq<Seq<char>>)
    ensures
        path_error(components) is None <==> components.len() > 0 && forall|i: int|
            0 <= i < components.len() ==> {
                let bytes = encode_utf8(#[trigger] components[i]);
                &&& bytes.len() > 0
                &&& !(bytes.len() == 1 && bytes[0] == 0x2e)
                &&& !(bytes.len() == 2 && bytes[0] == 0x2e && bytes[1] == 0x2e)
                &&& !bytes.contains(0x2f) && !bytes.contains(0x5c) && !bytes.contains(0)
            },
        components.len() == 0 ==> path_error(components) == Some(PathError::Empty),
{
    lemma_components(components, 0);
    assert forall|i: int| 0 <= i < components.len() implies (component_error(
        #[trigger] components[i],
    ) is None <==> {
        let bytes = encode_utf8(components[i]);
        &&& bytes.len() > 0
        &&& !(bytes.len() == 1 && bytes[0] == 0x2e)
        &&& !(bytes.len() == 2 && bytes[0] == 0x2e && bytes[1] == 0x2e)
        &&& !bytes.contains(0x2f) && !bytes.contains(0x5c) && !bytes.contains(0)
    }) by {
        lemma_component(components[i]);
    }
}

proof fn lemma_component(component: Seq<char>)
    ensures
        component_error(component) is None <==> {
            let bytes = encode_utf8(component);
            &&& bytes.len() > 0
            &&& !(bytes.len() == 1 && bytes[0] == 0x2e)
            &&& !(bytes.len() == 2 && bytes[0] == 0x2e && bytes[1] == 0x2e)
            &&& !bytes.contains(0x2f) && !bytes.contains(0x5c) && !bytes.contains(0)
        },
{
    let bytes = encode_utf8(component);
    if bytes.len() == 1 && bytes[0] == 0x2e {
        assert(bytes =~= seq![0x2eu8]);
    }
    if bytes.len() == 2 && bytes[0] == 0x2e && bytes[1] == 0x2e {
        assert(bytes =~= seq![0x2eu8, 0x2eu8]);
    }
    if exists|i: int| 0 <= i < bytes.len() && is_separator(#[trigger] bytes[i]) {
        let i = choose|i: int| 0 <= i < bytes.len() && is_separator(#[trigger] bytes[i]);
        assert(bytes.contains(bytes[i]));
    }
    if bytes.contains(0x2f) || bytes.contains(0x5c) || bytes.contains(0) {
        let i = choose|i: int|
            0 <= i < bytes.len() && (bytes[i] == 0x2f || bytes[i] == 0x5c || bytes[i] == 0);
        assert(is_separator(bytes[i]));
    }
}

} // verus!
