//! Merge-aware text over Unicode scalar values.

use crate::crdt::laws::{
    law_text_is_inserted_before_the_index, law_text_range_is_deleted, unused, written_up_to,
};
use crate::crdt::list::{
    are_operations, inserting, op_views, removing, Actor, ActorView, Apply, List, ListOp,
    ListOpView, ListView, OpId,
};
use crate::crdt::order::{lemma_empty_shows_nothing, visible};
use crate::error::{failure, seen, Error, ErrorCode, ErrorView, Result};
use crate::ordmap::Key;
use vstd::prelude::*;
use vstd::string::*;

verus! {

/// One commutative operation over merge-aware [`Text`].
pub type TextOp = ListOp<char>;

/// Unicode-scalar text that preserves concurrent insertions and observed
/// deletions.
#[derive(Debug, PartialEq, Eq)]
pub struct Text {
    characters: List<char>,
}

impl View for Text {
    type V = ListView<char>;

    closed spec fn view(&self) -> ListView<char> {
        self.characters@
    }
}

/// The characters that a text shows.
pub open spec fn shown_text(state: ListView<char>) -> Seq<char> {
    visible(state).map_values(|id: OpId| state.inserts[id].value)
}

/// What comes of several edits: the operations created, or the first error,
/// and the text and the actor afterwards.
#[verifier::ext_equal]
pub struct TextEdit {
    /// The operations created, or why one failed.
    pub outcome: std::result::Result<Seq<ListOpView<char>>, ErrorView>,
    /// The text afterwards.
    pub state: ListView<char>,
    /// The actor afterwards.
    pub actor: ActorView,
}

/// What comes of inserting characters one after another.
pub open spec fn typing(
    state: ListView<char>,
    actor: ActorView,
    index: nat,
    text: Seq<char>,
) -> TextEdit
    decreases text.len(),
{
    if text.len() == 0 {
        TextEdit { outcome: Ok(Seq::empty()), state, actor }
    } else {
        let before = typing(state, actor, index, text.drop_last());
        match before.outcome {
            Err(_) => before,
            Ok(operations) => {
                let edit = inserting(
                    before.state,
                    before.actor,
                    (index + text.len() - 1) as nat,
                    text.last(),
                );
                TextEdit {
                    outcome: match edit.outcome {
                        Ok(operation) => Ok(operations.push(operation)),
                        Err(error) => Err(error),
                    },
                    state: edit.state,
                    actor: edit.actor,
                }
            },
        }
    }
}

/// What comes of deleting `count` characters at an index.
pub open spec fn erasing(
    state: ListView<char>,
    actor: ActorView,
    index: nat,
    count: nat,
) -> TextEdit
    decreases count,
{
    if count == 0 {
        TextEdit { outcome: Ok(Seq::empty()), state, actor }
    } else {
        let before = erasing(state, actor, index, (count - 1) as nat);
        match before.outcome {
            Err(_) => before,
            Ok(operations) => {
                let edit = removing(before.state, before.actor, index);
                TextEdit {
                    outcome: match edit.outcome {
                        Ok(operation) => Ok(operations.push(operation)),
                        Err(error) => Err(error),
                    },
                    state: edit.state,
                    actor: edit.actor,
                }
            },
        }
    }
}

proof fn lemma_typing_error(
    state: ListView<char>,
    actor: ActorView,
    index: nat,
    text: Seq<char>,
    len: int,
)
    requires
        0 <= len <= text.len(),
        typing(state, actor, index, text.take(len)).outcome is Err,
    ensures
        typing(state, actor, index, text) == typing(state, actor, index, text.take(len)),
    decreases text.len() - len,
{
    if len < text.len() {
        assert(text.take(len + 1).drop_last() =~= text.take(len));
        lemma_typing_error(state, actor, index, text, len + 1);
    } else {
        assert(text.take(len) =~= text);
    }
}

proof fn lemma_erasing_error(
    state: ListView<char>,
    actor: ActorView,
    index: nat,
    count: nat,
    done: nat,
)
    requires
        done <= count,
        erasing(state, actor, index, done).outcome is Err,
    ensures
        erasing(state, actor, index, count) == erasing(state, actor, index, done),
    decreases count - done,
{
    if done < count {
        lemma_erasing_error(state, actor, index, count, done + 1);
    }
}

/// What the result of several edits says.
pub open spec fn ops_seen(result: Result<Vec<TextOp>>) -> std::result::Result<
    Seq<ListOpView<char>>,
    ErrorView,
> {
    match result {
        Ok(operations) => Ok(op_views(operations@)),
        Err(error) => Err(error@),
    }
}

impl Text {
    /// The characters are a well-formed list.
    pub closed spec fn wf(self) -> bool {
        self.characters.wf()
    }

    /// A well-formed text is a valid list.
    pub proof fn lemma_valid(self)
        requires
            self.wf(),
        ensures
            self@.valid(),
    {
        self.characters.lemma_valid();
    }

    /// Creates empty text.
    pub fn new() -> (text: Self)
        ensures
            text.wf(),
            text@ == ListView::<char>::empty(),
            shown_text(text@) == Seq::<char>::empty(),
    {
        proof {
            lemma_empty_shows_nothing::<char>();
            assert(shown_text(ListView::<char>::empty()) =~= Seq::<char>::empty());
        }
        Text { characters: List::new() }
    }

    /// Returns the number of visible Unicode scalar values.
    pub fn len(&self) -> (len: usize)
        requires
            self.wf(),
        ensures
            len == shown_text(self@).len(),
    {
        self.characters.len()
    }

    /// Returns whether the text contains no visible characters.
    pub fn is_empty(&self) -> (empty: bool)
        requires
            self.wf(),
        ensures
            empty == (shown_text(self@).len() == 0),
    {
        self.characters.is_empty()
    }

    /// Inserts `value` before the visible character at `index`.
    ///
    /// The characters are inserted one after another, the first anchored to the
    /// visible character before `index`. Where a lesser replica has inserted
    /// after the same character, what it inserted stays in front.
    ///
    /// Indexes count Unicode scalar values, not UTF-8 bytes or grapheme
    /// clusters. Earlier inserted characters remain applied if a later
    /// character fails.
    pub fn insert(&mut self, actor: &mut Actor, index: usize, value: &str) -> (result: Result<
        Vec<TextOp>,
    >)
        requires
            old(self).wf(),
        ensures
            final(self).wf(),
            (TextEdit { outcome: ops_seen(result), state: final(self)@, actor: final(actor)@ })
                == typing(old(self)@, old(actor)@, index as nat, value@),
            written_up_to(old(self)@, old(actor)@) && index <= shown_text(old(self)@).len()
                && old(actor)@.counter + value@.len() <= old(actor)@.limit ==> {
                &&& result is Ok
                &&& shown_text(final(self)@) == shown_text(old(self)@).take(index as int) + value@
                    + shown_text(old(self)@).skip(index as int)
                &&& written_up_to(final(self)@, final(actor)@)
                &&& final(actor)@ == (ActorView {
                    counter: (old(actor)@.counter + value@.len()) as u64,
                    ..old(actor)@
                })
            },
    {
        proof {
            self.lemma_valid();
            if written_up_to(self@, actor@) && index <= shown_text(self@).len() && actor@.counter
                + value@.len() <= actor@.limit {
                law_text_is_inserted_before_the_index(self@, actor@, index as nat, value@);
            }
        }
        let ghost start = self@;
        let ghost author = actor@;
        let len: usize = value.unicode_len();
        let mut operations: Vec<TextOp> = Vec::with_capacity(len);
        let mut place: usize = 0;
        proof {
            assert(value@.take(0) =~= Seq::<char>::empty());
            assert(op_views(operations@) =~= Seq::<ListOpView<char>>::empty());
        }
        for character in characters: value.chars()
            invariant
                self.wf(),
                start == old(self)@,
                start.valid(),
                author == old(actor)@,
                characters.seq() == value@,
                place == characters.index(),
                len == value@.len(),
                typing(start, author, index as nat, value@.take(place as int)) == (TextEdit {
                    outcome: Ok(op_views(operations@)),
                    state: self@,
                    actor: actor@,
                }),
        {
            let ghost earlier = operations@;
            proof {
                assert(value@.take(place + 1).drop_last() =~= value@.take(place as int));
                assert(value@.take(place + 1).last() == character);
            }
            match self.characters.insert_at(actor, index as u128 + place as u128, character) {
                Ok(operation) => {
                    operations.push(operation);
                    assert(op_views(operations@) =~= op_views(earlier).push(operation@));
                },
                Err(error) => {
                    proof {
                        lemma_typing_error(start, author, index as nat, value@, place + 1);
                        if written_up_to(start, author) && index <= shown_text(start).len()
                            && author.counter + value@.len() <= author.limit {
                            law_text_is_inserted_before_the_index(
                                start,
                                author,
                                index as nat,
                                value@,
                            );
                        }
                    }
                    return Err(error);
                },
            }
            place += 1;
        }
        assert(value@.take(value@.len() as int) =~= value@);
        Ok(operations)
    }

    /// Deletes `count` visible Unicode scalar values beginning at `index`.
    ///
    /// Earlier deletions remain applied if a later deletion fails.
    pub fn delete(&mut self, actor: &mut Actor, index: usize, count: usize) -> (result: Result<
        Vec<TextOp>,
    >)
        requires
            old(self).wf(),
        ensures
            final(self).wf(),
            if index + count > shown_text(old(self)@).len() {
                &&& result matches Err(error)
                &&& error@ == failure(
                    ErrorCode::InvalidInput,
                    "text deletion range is not fully visible"@,
                )
                &&& final(self)@ == old(self)@
                &&& final(actor)@ == old(actor)@
            } else {
                (TextEdit { outcome: ops_seen(result), state: final(self)@, actor: final(actor)@ })
                    == erasing(old(self)@, old(actor)@, index as nat, count as nat)
            },
            unused(old(self)@, old(actor)@, count as nat) && index + count <= shown_text(
                old(self)@,
            ).len() && old(actor)@.counter + count <= old(actor)@.limit ==> {
                &&& result matches Ok(operations)
                &&& operations@.len() == count
                &&& shown_text(final(self)@) == shown_text(old(self)@).take(index as int)
                    + shown_text(old(self)@).skip(index + count)
                &&& final(actor)@ == (ActorView {
                    counter: (old(actor)@.counter + count) as u64,
                    ..old(actor)@
                })
            },
    {
        proof {
            self.lemma_valid();
            if unused(self@, actor@, count as nat) && index + count <= shown_text(self@).len()
                && actor@.counter + count <= actor@.limit {
                law_text_range_is_deleted(self@, actor@, index as nat, count as nat);
            }
        }
        let len: usize = self.len();
        if index > len || count > len - index {
            return Err(
                Error::new(ErrorCode::InvalidInput, "text deletion range is not fully visible"),
            );
        }
        let ghost start = self@;
        let ghost author = actor@;
        let mut operations: Vec<TextOp> = Vec::new();
        let mut done: usize = 0;
        assert(op_views(operations@) =~= Seq::<ListOpView<char>>::empty());
        while done < count
            invariant
                self.wf(),
                start == old(self)@,
                start.valid(),
                author == old(actor)@,
                index + count <= shown_text(start).len(),
                done <= count,
                erasing(start, author, index as nat, done as nat) == (TextEdit {
                    outcome: Ok(op_views(operations@)),
                    state: self@,
                    actor: actor@,
                }),
            decreases count - done,
        {
            let ghost earlier = operations@;
            match self.characters.remove(actor, index) {
                Ok(operation) => {
                    operations.push(operation);
                    assert(op_views(operations@) =~= op_views(earlier).push(operation@));
                },
                Err(error) => {
                    proof {
                        lemma_erasing_error(
                            start,
                            author,
                            index as nat,
                            count as nat,
                            (done + 1) as nat,
                        );
                        if unused(start, author, count as nat) && author.counter + count
                            <= author.limit {
                            law_text_range_is_deleted(start, author, index as nat, count as nat);
                        }
                    }
                    return Err(error);
                },
            }
            done += 1;
        }
        Ok(operations)
    }

    /// Applies a text operation idempotently in any delivery order.
    pub fn apply(&mut self, operation: TextOp) -> (result: Result<Apply>)
        requires
            old(self).wf(),
        ensures
            final(self).wf(),
            (seen(result), final(self)@) == old(self)@.applying(operation@),
    {
        self.characters.apply(operation)
    }

    /// Unions another replica's text state atomically.
    ///
    /// On any operation-ID collision the text is left unchanged and the error
    /// names the least colliding identity.
    pub fn merge(&mut self, other: &Self) -> (result: Result<()>)
        requires
            old(self).wf(),
            other.wf(),
        ensures
            final(self).wf(),
            result is Err ==> *final(self) == *old(self),
            match result {
                Ok(_) => {
                    &&& forall|id: OpId| !old(self)@.collides(other@, id)
                    &&& final(self)@ == old(self)@.union(other@)
                },
                Err(error) => {
                    &&& final(self)@ == old(self)@
                    &&& exists|id: OpId|
                        {
                            &&& old(self)@.collides(other@, id)
                            &&& forall|smaller: OpId| #[trigger]
                                old(self)@.collides(other@, smaller) ==> !<OpId as Key>::before(
                                    smaller,
                                    id,
                                )
                            &&& error@ == #[trigger] crate::crdt::list::collision_error(id)
                        }
                },
            },
    {
        self.characters.merge(&other.characters)
    }

    /// Returns all retained text operations in stable identity order.
    pub fn operations(&self) -> (operations: Vec<TextOp>)
        requires
            self.wf(),
        ensures
            are_operations(self@, op_views(operations@)),
    {
        self.characters.operations()
    }

    /// Returns the visible characters.
    pub fn to_string(&self) -> (text: String)
        requires
            self.wf(),
        ensures
            text@ == shown_text(self@),
    {
        let characters = self.characters.iter();
        let mut text = String::new();
        let mut index: usize = 0;
        let ghost views = characters@.map_values(|value: &char| value@);
        while index < characters.len()
            invariant
                index <= characters@.len(),
                views == characters@.map_values(|value: &char| value@),
                text@ == views.take(index as int),
            decreases characters@.len() - index,
        {
            text.push(*characters[index]);
            assert(views.take(index + 1) =~= views.take(index as int).push(views[index as int]));
            index += 1;
        }
        assert(views.take(views.len() as int) =~= views);
        text
    }
}

impl Clone for Text {
    fn clone(&self) -> (copy: Self)
        ensures
            self.wf() ==> copy.wf() && copy@ == self@,
    {
        Text { characters: self.characters.clone() }
    }
}

impl Default for Text {
    fn default() -> (text: Self)
        ensures
            text.wf(),
            text@ == ListView::<char>::empty(),
    {
        Text::new()
    }
}

} // verus!
