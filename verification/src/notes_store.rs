//! The note ledger: for each identity that has one, a list of encrypted
//! notes in the order in which they were added.

use crate::error::Fault;
use crate::identity::Identity;
use crate::ordered_map::OrderedMap;
use vstd::prelude::*;

verus! {

/// One note as the service holds it. The text is ciphertext; the service
/// never reads it.
#[derive(Debug)]
pub struct EncryptedNote {
    pub id: u128,
    pub encrypted_text: String,
}

/// A note as contracts speak of it.
pub struct NoteView {
    pub id: u128,
    pub encrypted_text: Seq<char>,
}

impl View for EncryptedNote {
    type V = NoteView;

    open spec fn view(&self) -> NoteView {
        NoteView { id: self.id, encrypted_text: self.encrypted_text@ }
    }
}

impl DeepView for EncryptedNote {
    type V = NoteView;

    open spec fn deep_view(&self) -> NoteView {
        self@
    }
}

impl Clone for EncryptedNote {
    fn clone(&self) -> (note: EncryptedNote)
        ensures
            note == *self,
    {
        EncryptedNote { id: self.id, encrypted_text: self.encrypted_text.clone() }
    }
}

/// The notes with another number than `id`.
pub open spec fn other_than_id(id: u128) -> spec_fn(NoteView) -> bool {
    |note: NoteView| note.id != id
}

/// Whether `i` is the place of the first note of `notes` with the number `id`.
pub open spec fn is_first_with_id(notes: Seq<NoteView>, id: u128, i: int) -> bool {
    &&& 0 <= i < notes.len()
    &&& notes[i].id == id
    &&& forall|j: int| 0 <= j < i ==> (#[trigger] notes[j]).id != id
}

/// The notes with the text of the first note numbered `id` replaced by
/// `text`; unchanged where no note has that number.
pub open spec fn with_text(notes: Seq<NoteView>, id: u128, text: Seq<char>) -> Seq<NoteView> {
    if exists|i: int| is_first_with_id(notes, id, i) {
        let i = choose|i: int| is_first_with_id(notes, id, i);
        notes.update(i, NoteView { id, encrypted_text: text })
    } else {
        notes
    }
}

/// The note lists of all identities, and the number that the next new note
/// gets.
pub struct NotesStore {
    lists: OrderedMap<Identity, Vec<EncryptedNote>>,
    next_id: u128,
}

impl NotesStore {
    /// Whether `id` has a note list.
    pub closed spec fn has_list(&self, id: Seq<u8>) -> bool {
        self.lists.map().dom().contains(id)
    }

    /// The notes of `id`, oldest first; none where `id` has no list.
    pub closed spec fn notes(&self, id: Seq<u8>) -> Seq<NoteView> {
        if self.lists.map().dom().contains(id) {
            self.lists.map()[id].deep_view()
        } else {
            Seq::empty()
        }
    }

    /// The number that the next new note gets.
    pub closed spec fn next_id(&self) -> u128 {
        self.next_id
    }

    /// Whether the two stores hold the same for every identity but `id`.
    pub open spec fn agrees_except(&self, other: &NotesStore, id: Seq<u8>) -> bool {
        forall|x: Seq<u8>|
            x != id ==> self.has_list(x) == other.has_list(x) && self.notes(x) == other.notes(x)
    }

    /// Whether the two stores hold the same lists and the same next number.
    pub open spec fn agrees(&self, other: &NotesStore) -> bool {
        &&& self.next_id() == other.next_id()
        &&& forall|x: Seq<u8>|
            self.has_list(x) == other.has_list(x) && self.notes(x) == other.notes(x)
    }

    /// An identity without a list has no notes.
    pub proof fn lemma_no_list_no_notes(&self, id: Seq<u8>)
        ensures
            !self.has_list(id) ==> self.notes(id) == Seq::<NoteView>::empty(),
    {
    }

    /// A ledger without lists, whose first note will be number 0.
    pub fn new() -> (store: NotesStore)
        ensures
            store.next_id() == 0,
            forall|id: Seq<u8>| !store.has_list(id) && store.notes(id) == Seq::<NoteView>::empty(),
    {
        NotesStore { lists: OrderedMap::new(), next_id: 0 }
    }

    /// The notes of `caller`, oldest first; none where `caller` has no list.
    pub fn get_notes(&self, caller: Identity) -> (notes: Vec<EncryptedNote>)
        ensures
            notes.deep_view() == self.notes(caller@),
    {
        match self.lists.get(&caller) {
            Some(list) => {
                let notes = list.clone();
                assert(notes.deep_view() =~= list.deep_view());
                notes
            },
            None => {
                let notes: Vec<EncryptedNote> = Vec::new();
                assert(notes.deep_view() =~= Seq::<NoteView>::empty());
                notes
            },
        }
    }

    /// Adds a note with the text `encrypted_text` to the end of `caller`'s
    /// list and returns its number: the next number of the store, which
    /// then goes up by one.
    ///
    /// Refused, with nothing changed, where `caller` has no list, and where
    /// the numbers have run out.
    pub fn add_note(&mut self, caller: Identity, encrypted_text: String) -> (r: Result<u128, Fault>)
        ensures
            final(self).agrees_except(old(self), caller@),
            final(self).has_list(caller@) == old(self).has_list(caller@),
            match r {
                Ok(id) => {
                    &&& old(self).has_list(caller@)
                    &&& id == old(self).next_id()
                    &&& final(self).next_id() == id + 1
                    &&& final(self).notes(caller@) == old(self).notes(caller@).push(
                        NoteView { id, encrypted_text: encrypted_text@ },
                    )
                },
                Err(fault) => {
                    &&& final(self).agrees(old(self))
                    &&& fault == (if !old(self).has_list(caller@) {
                        Fault::NoSuchIdentity
                    } else {
                        Fault::NoteIdsExhausted
                    })
                    &&& old(self).has_list(caller@) ==> old(self).next_id() == u128::MAX
                },
            },
    {
        if !self.lists.contains(&caller) {
            return Err(Fault::NoSuchIdentity);
        }
        if self.next_id == u128::MAX {
            return Err(Fault::NoteIdsExhausted);
        }
        let id = self.next_id;
        match self.lists.remove(&caller) {
            Some((owner, mut list)) => {
                let ghost before = list.deep_view();
                list.push(EncryptedNote { id, encrypted_text });
                assert(list.deep_view() =~= before.push(
                    NoteView { id, encrypted_text: encrypted_text@ },
                ));
                self.lists.insert(owner, list);
                self.next_id = id + 1;
                Ok(id)
            },
            None => Err(Fault::NoSuchIdentity),
        }
    }

    /// Replaces the text of the first note of `caller` numbered `update_id`;
    /// changes nothing where `caller` has no such note.
    ///
    /// Refused where `caller` has no list.
    pub fn update_note(&mut self, caller: Identity, update_id: u128, update_text: String) -> (r:
        Result<(), Fault>)
        ensures
            final(self).agrees_except(old(self), caller@),
            final(self).has_list(caller@) == old(self).has_list(caller@),
            final(self).next_id() == old(self).next_id(),
            r == (if old(self).has_list(caller@) {
                Ok::<(), Fault>(())
            } else {
                Err::<(), Fault>(Fault::NoSuchIdentity)
            }),
            final(self).notes(caller@) == with_text(
                old(self).notes(caller@),
                update_id,
                update_text@,
            ),
    {
        match self.lists.remove(&caller) {
            Some((owner, mut list)) => {
                let ghost before = list.deep_view();
                let mut i: usize = 0;
                let mut found: Option<usize> = None;
                while i < list.len() && found.is_none()
                    invariant
                        i <= list.len(),
                        list.deep_view() == before,
                        match found {
                            Some(at) => is_first_with_id(before, update_id, at as int),
                            None => forall|j: int|
                                0 <= j < i ==> (#[trigger] before[j]).id != update_id,
                        },
                    decreases list.len() - i + (if found.is_none() { 1int } else { 0int }),
                {
                    if list[i].id == update_id {
                        assert(before[i as int].id == update_id);
                        found = Some(i);
                    } else {
                        i += 1;
                    }
                }
                match found {
                    Some(at) => {
                        list[at] = EncryptedNote { id: update_id, encrypted_text: update_text };
                        proof {
                            let chosen = choose|k: int| is_first_with_id(before, update_id, k);
                            assert(is_first_with_id(before, update_id, at as int));
                            assert(chosen == at);
                            assert(list.deep_view() =~= before.update(
                                at as int,
                                NoteView { id: update_id, encrypted_text: update_text@ },
                            ));
                        }
                    },
                    None => {
                        assert(!(exists|k: int| is_first_with_id(before, update_id, k)));
                    },
                }
                self.lists.insert(owner, list);
                Ok(())
            },
            None => {
                assert(old(self).notes(caller@).len() == 0);
                assert(!(exists|k: int| is_first_with_id(old(self).notes(caller@), update_id, k)));
                Err(Fault::NoSuchIdentity)
            },
        }
    }

    /// Deletes every note of `caller` numbered `delete_id`, leaving the
    /// others in their order.
    ///
    /// Refused where `caller` has no list.
    pub fn delete_note(&mut self, caller: Identity, delete_id: u128) -> (r: Result<(), Fault>)
        ensures
            final(self).agrees_except(old(self), caller@),
            final(self).has_list(caller@) == old(self).has_list(caller@),
            final(self).next_id() == old(self).next_id(),
            r == (if old(self).has_list(caller@) {
                Ok::<(), Fault>(())
            } else {
                Err::<(), Fault>(Fault::NoSuchIdentity)
            }),
            final(self).notes(caller@) == old(self).notes(caller@).filter(other_than_id(delete_id)),
    {
        proof {
            reveal(Seq::filter);
        }
        match self.lists.remove(&caller) {
            Some((owner, list)) => {
                let ghost before = list.deep_view();
                let mut kept: Vec<EncryptedNote> = Vec::new();
                assert(kept.deep_view() =~= before.take(0).filter(other_than_id(delete_id)));
                for note in it: list.into_iter()
                    invariant
                        it.seq() == list@,
                        before == list.deep_view(),
                        kept.deep_view() == before.take(it.index() as int).filter(
                            other_than_id(delete_id),
                        ),
                {
                    let ghost kept_before = kept.deep_view();
                    proof {
                        let seen = before.take(it.index() as int);
                        assert(before.take(it.index() + 1) =~= seen.push(note@));
                        seen.lemma_filter_push(note@, other_than_id(delete_id));
                    }
                    if note.id != delete_id {
                        kept.push(note);
                        assert(kept.deep_view() =~= kept_before.push(note@));
                    }
                }
                assert(before.take(before.len() as int) =~= before);
                self.lists.insert(owner, kept);
                Ok(())
            },
            None => Err(Fault::NoSuchIdentity),
        }
    }

    /// Gives `caller` an empty note list, in the place of the list that
    /// `caller` had, if any.
    pub fn assign_note(&mut self, caller: Identity)
        ensures
            final(self).agrees_except(old(self), caller@),
            final(self).next_id() == old(self).next_id(),
            final(self).has_list(caller@),
            final(self).notes(caller@) == Seq::<NoteView>::empty(),
    {
        let list: Vec<EncryptedNote> = Vec::new();
        assert(list.deep_view() =~= Seq::<NoteView>::empty());
        self.lists.insert(caller, list);
    }

    /// Whether `caller` has a note list.
    pub fn has_note(&self, caller: Identity) -> (r: bool)
        ensures
            r == self.has_list(caller@),
    {
        self.lists.contains(&caller)
    }
}

impl Default for NotesStore {
    /// A ledger without lists, whose first note will be number 0.
    fn default() -> (store: NotesStore)
        ensures
            store.next_id() == 0,
            forall|id: Seq<u8>| !store.has_list(id) && store.notes(id) == Seq::<NoteView>::empty(),
    {
        NotesStore::new()
    }
}

} // verus!
