//! What is recorded of one deployment: the files that went out, each with the
//! hash of its content and the commit it came from.

use crate::repo::{short_ref, CommitHash, FileHash};
use crate::sorted_map::{
    lemma_map_of_sorted, lemma_sorted_index_of, map_of, sorted_keys, SortedMap,
};
use crate::text::{first_index_of, lemma_first_index_unique};
use vstd::prelude::*;
use vstd::string::*;

verus! {

/// The source segment of a file that was selected from the commit itself.
pub open spec fn latest_source() -> Seq<char> {
    seq!['l', 'a', 't', 'e', 's', 't']
}

/// The identifier of the file `name` that came from the environment `from`,
/// or from the commit itself where `from` is `None`: the source in braces, a
/// slash, and the path.
pub open spec fn ident_text(name: Seq<char>, from: Option<Seq<char>>) -> Seq<char> {
    let source = match from {
        Some(upstream) => upstream,
        None => latest_source(),
    };
    seq!['{'] + source + seq!['}', '/'] + name
}

/// The path in an identifier: what follows the first closing brace and the
/// character behind it.
pub open spec fn ident_name(ident: Seq<char>) -> Seq<char> {
    let close = first_index_of(ident, '}');
    if close + 2 <= ident.len() {
        ident.subrange(close + 2, ident.len() as int)
    } else {
        Seq::empty()
    }
}

/// No closing brace in `text`.
pub open spec fn brace_free(text: Seq<char>) -> bool {
    forall|i: int| 0 <= i < text.len() ==> text[i] != '}'
}

/// The path of an identifier is the path it was made from, as long as the
/// name of the source holds no closing brace.
pub proof fn lemma_ident_name_of_text(name: Seq<char>, from: Option<Seq<char>>)
    requires
        from matches Some(upstream) ==> brace_free(upstream),
    ensures
        ident_name(ident_text(name, from)) == name,
{
    let source = match from {
        Some(upstream) => upstream,
        None => latest_source(),
    };
    let ident = ident_text(name, from);
    let close = source.len() + 1;
    assert(ident[0] == '{');
    assert forall|i: int| 0 <= i < close implies ident[i] != '}' by {
        if i > 0 {
            assert(ident[i] == source[i - 1]);
        }
    }
    assert(ident[close as int] == '}');
    lemma_first_index_unique(ident, '}', close as int);
    assert(ident.subrange(close as int + 2, ident.len() as int) =~= name);
}

/// Two identifiers made from the same path and source are the same, and
/// identifiers of different paths differ.
pub proof fn lemma_ident_text_injective_in_name(
    name1: Seq<char>,
    name2: Seq<char>,
    from: Option<Seq<char>>,
)
    ensures
        ident_text(name1, from) == ident_text(name2, from) <==> name1 == name2,
{
    let source = match from {
        Some(upstream) => upstream,
        None => latest_source(),
    };
    let head = seq!['{'] + source + seq!['}', '/'];
    if ident_text(name1, from) == ident_text(name2, from) {
        assert(ident_text(name1, from).subrange(
            head.len() as int,
            head.len() as int + name1.len() as int,
        ) =~= name1);
        assert(ident_text(name2, from).len() == head.len() + name2.len());
        assert(ident_text(name2, from).subrange(
            head.len() as int,
            head.len() as int + name2.len() as int,
        ) =~= name2);
    }
}

/// Key of a file in a recorded state: where the file came from, and its path.
#[derive(Debug, PartialEq, Eq, PartialOrd, Ord, Hash)]
pub struct FileIdent {
    text: String,
}

impl View for FileIdent {
    type V = Seq<char>;

    closed spec fn view(&self) -> Seq<char> {
        self.text@
    }
}

impl Clone for FileIdent {
    fn clone(&self) -> (copy: Self)
        ensures
            copy@ == self@,
    {
        FileIdent { text: self.text.clone() }
    }
}

impl FileIdent {
    /// The identifier of the file at the path `name`, inherited from the
    /// environment `from` or, with `None`, taken from the commit itself.
    pub fn new(name: String, from: Option<&str>) -> (ident: Self)
        ensures
            ident@ == ident_text(
                name@,
                match from {
                    Some(upstream) => Some(upstream@),
                    None => None,
                },
            ),
    {
        let mut text = String::from_str("{");
        match from {
            Some(upstream) => {
                text.append(upstream);
            },
            None => {
                text.append("latest");
            },
        }
        text.append("}/");
        text.append(name.as_str());
        proof {
            reveal_strlit("{");
            reveal_strlit("latest");
            reveal_strlit("}/");
            assert("{"@ =~= seq!['{']);
            assert("latest"@ =~= latest_source());
            assert("}/"@ =~= seq!['}', '/']);
        }
        FileIdent { text }
    }

    /// The identifier whose full text is `text`, as a state file holds it.
    pub fn from_inner(text: String) -> (ident: Self)
        ensures
            ident@ == text@,
    {
        FileIdent { text }
    }

    /// The path of the file.
    pub fn name(&self) -> (name: String)
        ensures
            name@ == ident_name(self@),
    {
        name_of(self.text.as_str())
    }

    /// The full identifier.
    pub fn inner(self) -> (text: String)
        ensures
            text@ == self@,
    {
        self.text
    }

    /// Borrowed form of [`FileIdent::inner`].
    pub fn as_str(&self) -> (text: &str)
        ensures
            text@ == self@,
    {
        self.text.as_str()
    }
}

/// The path in the identifier `ident`.
pub(crate) fn name_of(ident: &str) -> (name: String)
    ensures
        name@ == ident_name(ident@),
{
    let len: usize = ident.unicode_len();
    let mut close: usize = 0;
    while close < len && ident.get_char(close) != '}'
        invariant
            close <= len,
            len == ident@.len(),
            forall|j: int| 0 <= j < close ==> ident@[j] != '}',
        decreases len - close,
    {
        close += 1;
    }
    proof {
        lemma_first_index_unique(ident@, '}', close as int);
    }
    if len - close >= 2 {
        String::from_str(ident.substring_char(close + 2, len))
    } else {
        String::new()
    }
}

/// What is recorded of one file.
#[derive(Debug, PartialEq, Eq)]
pub struct FileState {
    /// Hash of the content, or `None` where the file was expected and not
    /// found on disk.
    pub file_hash: Option<FileHash>,
    /// Whether the content on disk differed from the committed content.
    pub dirty: bool,
    /// The earliest commit in which the file had this content.
    pub from_commit: CommitHash,
    /// The summary of that commit.
    pub message: String,
}

/// A [`FileState`] as plain values.
pub struct FileStateView {
    pub file_hash: Option<Seq<char>>,
    pub dirty: bool,
    pub from_commit: Seq<char>,
    pub message: Seq<char>,
}

/// The text of a hash that may be missing.
pub open spec fn hash_view(hash: Option<FileHash>) -> Option<Seq<char>> {
    match hash {
        Some(h) => Some(h@),
        None => None,
    }
}

impl View for FileState {
    type V = FileStateView;

    open spec fn view(&self) -> FileStateView {
        FileStateView {
            file_hash: hash_view(self.file_hash),
            dirty: self.dirty,
            from_commit: self.from_commit@,
            message: self.message@,
        }
    }
}

impl Clone for FileState {
    fn clone(&self) -> (copy: Self)
        ensures
            copy@ == self@,
    {
        let file_hash = match &self.file_hash {
            Some(hash) => Some(hash.clone()),
            None => None,
        };
        FileState {
            file_hash,
            dirty: self.dirty,
            from_commit: self.from_commit.clone(),
            message: self.message.clone(),
        }
    }
}

/// How a file state reads to people: the short commit in brackets, a dash,
/// and the commit's summary.
pub open spec fn file_state_text(state: FileStateView) -> Seq<char> {
    seq!['['] + short_ref(state.from_commit) + seq![']', ' ', '-', ' '] + state.message
}

impl FileState {
    /// The state in words, for people.
    pub fn to_text(&self) -> (text: String)
        ensures
            text@ == file_state_text(self@),
    {
        let mut text = String::from_str("[");
        let short = self.from_commit.to_short_ref();
        text.append(short.as_str());
        text.append("] - ");
        text.append(self.message.as_str());
        proof {
            reveal_strlit("[");
            reveal_strlit("] - ");
            assert("["@ =~= seq!['[']);
            assert("] - "@ =~= seq![']', ' ', '-', ' ']);
        }
        text
    }

    /// Whether both states record the same content hash, or both none.
    pub fn same_hash(&self, other: &FileState) -> (equal: bool)
        ensures
            equal == (self@.file_hash == other@.file_hash),
    {
        match (&self.file_hash, &other.file_hash) {
            (Some(mine), Some(theirs)) => mine.same(theirs),
            (None, None) => true,
            _ => false,
        }
    }
}

/// The views of a row of file states.
pub open spec fn state_views(states: Seq<FileState>) -> Seq<FileStateView> {
    Seq::new(states.len(), |i: int| states[i]@)
}

/// Whether one of `states` is dirty.
pub open spec fn any_dirty_in(states: Seq<FileStateView>) -> bool {
    exists|i: int| 0 <= i < states.len() && (#[trigger] states[i]).dirty
}

/// The state of one deployment.
#[derive(Debug)]
pub struct DeployState {
    head_commit: CommitHash,
    propagated_head: Option<CommitHash>,
    any_dirty: bool,
    files: SortedMap<FileState>,
}

/// A [`DeployState`] as plain values. The files stand in the order of their
/// identifiers, `idents[i]` with `states[i]`.
pub struct DeployStateView {
    pub head_commit: Seq<char>,
    pub propagated_head: Option<Seq<char>>,
    pub any_dirty: bool,
    pub idents: Seq<Seq<char>>,
    pub states: Seq<FileStateView>,
}

impl DeployStateView {
    /// What holds of the view of every [`DeployState`]: one state for each
    /// identifier, the identifiers in order, and `any_dirty` set exactly when
    /// a file is dirty.
    pub open spec fn valid(self) -> bool {
        &&& self.idents.len() == self.states.len()
        &&& sorted_keys(self.idents)
        &&& self.any_dirty == any_dirty_in(self.states)
    }

    /// The files as a map from identifier to state.
    pub open spec fn files(self) -> Map<Seq<char>, FileStateView> {
        map_of(self.idents, self.states)
    }

    /// The state recorded under `ident`, if there is one.
    pub open spec fn file(self, ident: Seq<char>) -> Option<FileStateView> {
        if self.files().contains_key(ident) {
            Some(self.files()[ident])
        } else {
            None
        }
    }
}

/// The text of a commit that may be missing.
pub open spec fn commit_view(commit: Option<CommitHash>) -> Option<Seq<char>> {
    match commit {
        Some(c) => Some(c@),
        None => None,
    }
}

impl View for DeployState {
    type V = DeployStateView;

    closed spec fn view(&self) -> DeployStateView {
        DeployStateView {
            head_commit: self.head_commit@,
            propagated_head: commit_view(self.propagated_head),
            any_dirty: self.any_dirty,
            idents: self.files.keys(),
            states: state_views(self.files.values()),
        }
    }
}

/// Whether one of the files of `files` is dirty.
fn scan_dirty(files: &SortedMap<FileState>) -> (dirty: bool)
    ensures
        dirty == any_dirty_in(state_views(files.values())),
{
    let count = files.len();
    let mut at: usize = 0;
    while at < count
        invariant
            at <= count,
            count == files.keys().len(),
            files.ordered(),
            forall|j: int| 0 <= j < at ==> !(#[trigger] state_views(files.values())[j]).dirty,
        decreases count - at,
    {
        if files.value_at(at).dirty {
            assert(state_views(files.values())[at as int].dirty);
            return true;
        }
        at += 1;
    }
    false
}

impl Clone for DeployState {
    fn clone(&self) -> (copy: Self)
        ensures
            copy@ == self@,
    {
        proof {
            use_type_invariant(self);
        }
        let mut files: SortedMap<FileState> = SortedMap::new();
        let count = self.files.len();
        let mut at: usize = 0;
        while at < count
            invariant
                at <= count,
                count == self.files.keys().len(),
                self.files.ordered(),
                files.ordered(),
                files.keys() == self.files.keys().take(at as int),
                state_views(files.values()) == state_views(self.files.values()).take(at as int),
            decreases count - at,
        {
            let key = self.files.key_at(at).clone();
            let value = self.files.value_at(at).clone();
            let ghost keys0 = files.keys();
            let ghost values0 = files.values();
            files.insert(key, value);
            proof {
                lemma_append_entry(
                    keys0,
                    values0,
                    files.keys(),
                    files.values(),
                    self.files.keys(),
                    at as int,
                    value,
                );
                assert(state_views(files.values()) =~= state_views(self.files.values()).take(
                    at + 1,
                ));
            }
            at += 1;
        }
        assert(files.keys() =~= self.files.keys());
        assert(state_views(files.values()) =~= state_views(self.files.values()));
        let propagated_head = match &self.propagated_head {
            Some(head) => Some(head.clone()),
            None => None,
        };
        DeployState {
            head_commit: self.head_commit.clone(),
            propagated_head,
            any_dirty: self.any_dirty,
            files,
        }
    }
}

/// Inserting the next key of a sorted row into the map that holds the keys
/// before it appends it.
pub proof fn lemma_append_entry<V>(
    keys0: Seq<Seq<char>>,
    values0: Seq<V>,
    keys1: Seq<Seq<char>>,
    values1: Seq<V>,
    all: Seq<Seq<char>>,
    at: int,
    value: V,
)
    requires
        sorted_keys(all),
        0 <= at < all.len(),
        keys0 == all.take(at),
        keys0.len() == values0.len(),
        sorted_keys(keys1),
        keys1.len() == values1.len(),
        map_of(keys1, values1) == map_of(keys0, values0).insert(all[at], value),
    ensures
        keys1 == all.take(at + 1),
        values1 == values0.push(value),
{
    let keys2 = keys0.push(all[at]);
    let values2 = values0.push(value);
    assert(keys2 =~= all.take(at + 1));
    assert(sorted_keys(keys2)) by {
        assert forall|i: int, j: int| 0 <= i < j < keys2.len() implies crate::text::text_lt(
            #[trigger] keys2[i],
            #[trigger] keys2[j],
        ) by {
            assert(keys2[i] == all[i]);
            assert(keys2[j] == all[j]);
        }
    }
    assert(sorted_keys(keys0)) by {
        assert forall|i: int, j: int| 0 <= i < j < keys0.len() implies crate::text::text_lt(
            #[trigger] keys0[i],
            #[trigger] keys0[j],
        ) by {
            assert(keys0[i] == all[i]);
            assert(keys0[j] == all[j]);
        }
    }
    lemma_map_of_sorted(keys0, values0);
    lemma_map_of_sorted(keys2, values2);
    assert(map_of(keys2, values2) =~= map_of(keys0, values0).insert(all[at], value)) by {
        assert(keys2[at] == all[at]);
        assert forall|k: Seq<char>| keys0.contains(k) implies keys2.contains(k) && map_of(
            keys2,
            values2,
        )[k] == map_of(keys0, values0)[k] && k != all[at] by {
            let i = keys0.index_of(k);
            assert(keys2[i] == k);
            lemma_sorted_index_of(keys2, i);
            lemma_sorted_index_of(keys0, i);
            if k == all[at] {
                crate::sorted_map::lemma_sorted_keys_distinct(keys2, i, at);
            }
        }
        assert forall|k: Seq<char>| keys2.contains(k) && k != all[at] implies keys0.contains(
            k,
        ) by {
            let i = keys2.index_of(k);
            assert(keys0[i] == k);
        }
        lemma_sorted_index_of(keys2, at);
    }
    crate::sorted_map::lemma_sorted_maps_agree(keys1, values1, keys2, values2);
}

impl DeployState {
    #[verifier::type_invariant]
    spec fn dirty_flag_is_exact(&self) -> bool {
        self.any_dirty == any_dirty_in(state_views(self.files.values()))
    }

    /// The state at `head_commit` with no file and no upstream.
    pub fn new(head_commit: CommitHash) -> (state: Self)
        ensures
            state@.head_commit == head_commit@,
            state@.propagated_head.is_none(),
            !state@.any_dirty,
            state@.idents.len() == 0,
            state@.states.len() == 0,
            state@.valid(),
    {
        let files: SortedMap<FileState> = SortedMap::new();
        assert(state_views(files.values()).len() == 0);
        DeployState { head_commit, propagated_head: None, any_dirty: false, files }
    }

    /// Makes known what holds of every state.
    pub fn validity(&self)
        ensures
            self@.valid(),
    {
        proof {
            use_type_invariant(self);
        }
        let _ = self.files.len();
    }

    /// The commit that the state was taken at.
    pub fn head_commit(&self) -> (commit: &CommitHash)
        ensures
            commit@ == self@.head_commit,
    {
        &self.head_commit
    }

    /// The head of the upstream state that the inherited files came from.
    pub fn propagated_head(&self) -> (commit: Option<&CommitHash>)
        ensures
            match commit {
                Some(c) => self@.propagated_head == Some(c@),
                None => self@.propagated_head.is_none(),
            },
    {
        match &self.propagated_head {
            Some(head) => Some(head),
            None => None,
        }
    }

    /// Whether a file was dirty when the state was taken.
    pub fn any_dirty(&self) -> (dirty: bool)
        ensures
            dirty == self@.any_dirty,
            self@.valid(),
    {
        self.validity();
        self.any_dirty
    }

    /// Number of files.
    pub fn len(&self) -> (count: usize)
        ensures
            count == self@.idents.len(),
            self@.valid(),
    {
        self.validity();
        self.files.len()
    }

    /// The identifier of the file at a position, as text.
    pub fn ident_at(&self, at: usize) -> (ident: &String)
        requires
            at < self@.idents.len(),
        ensures
            ident@ == self@.idents[at as int],
    {
        self.files.key_at(at)
    }

    /// The state of the file at a position.
    pub fn file_at(&self, at: usize) -> (state: &FileState)
        requires
            at < self@.idents.len(),
        ensures
            state@ == self@.states[at as int],
            self@.valid(),
    {
        self.validity();
        self.files.value_at(at)
    }

    /// The state recorded under `ident`, if there is one.
    pub fn get(&self, ident: &str) -> (state: Option<&FileState>)
        ensures
            match state {
                Some(s) => self@.file(ident@) == Some(s@),
                None => self@.file(ident@).is_none(),
            },
            self@.valid(),
    {
        self.validity();
        let (at, found) = self.files.position(ident);
        proof {
            lemma_map_of_sorted(self@.idents, self@.states);
        }
        if found {
            Some(self.files.value_at(at))
        } else {
            None
        }
    }

    /// Sets the commit that the state was taken at.
    pub fn set_head_commit(&mut self, head_commit: CommitHash)
        ensures
            final(self)@ == (DeployStateView { head_commit: head_commit@, ..old(self)@ }),
    {
        proof {
            use_type_invariant(&*self);
        }
        let mut taken = DeployState::new(CommitHash::new(String::new()));
        std::mem::swap(self, &mut taken);
        let DeployState { head_commit: _, propagated_head, any_dirty, files } = taken;
        *self = DeployState { head_commit, propagated_head, any_dirty, files };
    }

    /// Sets the head of the upstream state that files are inherited from.
    pub fn set_propagated_head(&mut self, propagated_head: Option<CommitHash>)
        ensures
            final(self)@ == (DeployStateView {
                propagated_head: commit_view(propagated_head),
                ..old(self)@
            }),
    {
        proof {
            use_type_invariant(&*self);
        }
        let mut taken = DeployState::new(CommitHash::new(String::new()));
        std::mem::swap(self, &mut taken);
        let DeployState { head_commit, propagated_head: _, any_dirty, files } = taken;
        *self = DeployState { head_commit, propagated_head, any_dirty, files };
    }

    /// Records `state` under `ident`, in place of what was recorded there.
    pub fn insert_file(&mut self, ident: FileIdent, state: FileState)
        ensures
            final(self)@.valid(),
            final(self)@.head_commit == old(self)@.head_commit,
            final(self)@.propagated_head == old(self)@.propagated_head,
            final(self)@.files() == old(self)@.files().insert(ident@, state@),
    {
        proof {
            use_type_invariant(&*self);
        }
        let mut taken = DeployState::new(CommitHash::new(String::new()));
        std::mem::swap(self, &mut taken);
        let DeployState { head_commit, propagated_head, any_dirty: _, files } = taken;
        let mut files = files;
        let _ = files.len();
        let ghost keys0 = files.keys();
        let ghost values0 = files.values();
        files.insert(ident.inner(), state);
        let any_dirty = scan_dirty(&files);
        proof {
            lemma_views_of_insert(keys0, values0, files.keys(), files.values(), ident@, state);
        }
        *self = DeployState { head_commit, propagated_head, any_dirty, files };
    }
}

/// What an insertion into a map of file states does to the map of their views.
pub proof fn lemma_views_of_insert(
    keys0: Seq<Seq<char>>,
    values0: Seq<FileState>,
    keys1: Seq<Seq<char>>,
    values1: Seq<FileState>,
    key: Seq<char>,
    value: FileState,
)
    requires
        sorted_keys(keys0),
        keys0.len() == values0.len(),
        sorted_keys(keys1),
        keys1.len() == values1.len(),
        map_of(keys1, values1) == map_of(keys0, values0).insert(key, value),
    ensures
        map_of(keys1, state_views(values1)) == map_of(keys0, state_views(values0)).insert(
            key,
            value@,
        ),
{
    lemma_map_of_sorted(keys0, values0);
    lemma_map_of_sorted(keys1, values1);
    lemma_map_of_sorted(keys0, state_views(values0));
    lemma_map_of_sorted(keys1, state_views(values1));
    let before = map_of(keys0, state_views(values0));
    let after = map_of(keys1, state_views(values1));
    assert(after =~= before.insert(key, value@)) by {
        assert forall|k: Seq<char>| after.contains_key(k) implies before.insert(
            key,
            value@,
        ).contains_key(k) && after[k] == before.insert(key, value@)[k] by {
            let i = keys1.index_of(k);
            assert(map_of(keys1, values1).contains_key(keys1[i]));
            assert(after[keys1[i]] == state_views(values1)[i]);
            assert(map_of(keys1, values1)[keys1[i]] == values1[i]);
            if k != key {
                assert(keys0.contains(k));
                let j = keys0.index_of(k);
                assert(map_of(keys0, values0)[keys0[j]] == values0[j]);
                assert(before[keys0[j]] == state_views(values0)[j]);
            }
        }
        assert forall|k: Seq<char>| before.insert(key, value@).contains_key(k) implies after.contains_key(
            k,
        ) by {
            assert(map_of(keys0, values0).insert(key, value).contains_key(k));
        }
    }
}

} // verus!
