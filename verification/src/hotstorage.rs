//! The projector: folds delivered bus records into the keyed comment
//! store. A row is created on first sight of an id; later records for the
//! same id update its text and state and leave its group fixed. The
//! caller commits an offset only after `handle_message` returns success,
//! which gives at-least-once delivery into the store.

use vstd::prelude::*;

use crate::comment::{Comment, CommentView, DecodeError, spec_decode_comment};
use crate::text::string_eq_str;
use vstd::std_specs::vec::vec_index_mut;

verus! {

broadcast use vstd::seq_lib::group_seq_lib_default, vstd::seq::group_seq_axioms;

/// Why the projector refused one delivered message. The caller must not
/// commit the message's offset in either case.
#[derive(Clone, Copy, PartialEq, Eq, Structural, Debug)]
pub enum HotStorageError {
    /// The payload bytes do not decode to a comment record.
    Encoding(DecodeError),
    /// The message at this offset carried no payload at all.
    MissingPayload(i64),
}

/// The store: one row per comment id.
pub struct CommentStore {
    rows: Vec<Comment>,
}

/// First row listed under `id`.
spec fn find_row(rows: Seq<Comment>, id: Seq<char>) -> Option<CommentView>
    decreases rows.len(),
{
    if rows.len() == 0 {
        None
    } else if rows[0].id@ == id {
        Some(rows[0]@)
    } else {
        find_row(rows.skip(1), id)
    }
}

proof fn lemma_find_row_at(rows: Seq<Comment>, id: Seq<char>, i: int)
    requires
        0 <= i < rows.len(),
        rows[i].id@ == id,
        forall|j: int| 0 <= j < i ==> (#[trigger] rows[j]).id@ != id,
    ensures
        find_row(rows, id) == Some(rows[i]@),
    decreases i,
{
    if i > 0 {
        assert(forall|j: int| 0 <= j < rows.skip(1).len() ==> rows.skip(1)[j] == rows[j + 1]);
        lemma_find_row_at(rows.skip(1), id, i - 1);
    }
}

proof fn lemma_find_row_absent(rows: Seq<Comment>, id: Seq<char>)
    requires
        forall|j: int| 0 <= j < rows.len() ==> (#[trigger] rows[j]).id@ != id,
    ensures
        find_row(rows, id) is None,
    decreases rows.len(),
{
    if rows.len() > 0 {
        assert(forall|j: int| 0 <= j < rows.skip(1).len() ==> rows.skip(1)[j] == rows[j + 1]);
        lemma_find_row_absent(rows.skip(1), id);
    }
}

proof fn lemma_find_row_characterize(rows: Seq<Comment>, id: Seq<char>)
    requires
        find_row(rows, id) is None,
    ensures
        forall|j: int| 0 <= j < rows.len() ==> (#[trigger] rows[j]).id@ != id,
    decreases rows.len(),
{
    if rows.len() > 0 {
        assert(forall|j: int| 0 <= j < rows.skip(1).len() ==> rows.skip(1)[j] == rows[j + 1]);
        lemma_find_row_characterize(rows.skip(1), id);
        assert forall|j: int| 0 <= j < rows.len() implies (#[trigger] rows[j]).id@ != id by {
            if j > 0 {
                assert(rows.skip(1)[j - 1] == rows[j]);
            }
        }
    }
}

proof fn lemma_find_row_first_witness(rows: Seq<Comment>, id: Seq<char>)
    requires
        find_row(rows, id) is Some,
    ensures
        exists|i: int|
            0 <= i < rows.len() && (#[trigger] rows[i]).id@ == id && (forall|j: int|
                0 <= j < i ==> (#[trigger] rows[j]).id@ != id) && find_row(rows, id) == Some(
                rows[i]@,
            ),
    decreases rows.len(),
{
    if rows[0].id@ == id {
        assert(0 <= 0 < rows.len() && rows[0].id@ == id && (forall|j: int|
            0 <= j < 0 ==> (#[trigger] rows[j]).id@ != id) && find_row(rows, id) == Some(rows[0]@));
    } else {
        assert(forall|j: int| 0 <= j < rows.skip(1).len() ==> rows.skip(1)[j] == rows[j + 1]);
        lemma_find_row_first_witness(rows.skip(1), id);
        let i = choose|i: int|
            0 <= i < rows.skip(1).len() && (#[trigger] rows.skip(1)[i]).id@ == id && (forall|
                j: int,
            |
                0 <= j < i ==> (#[trigger] rows.skip(1)[j]).id@ != id) && find_row(
                rows.skip(1),
                id,
            ) == Some(rows.skip(1)[i]@);
        assert(rows[i + 1].id@ == id);
        assert forall|j: int| 0 <= j < i + 1 implies (#[trigger] rows[j]).id@ != id by {
            if j > 0 {
                assert(rows.skip(1)[j - 1] == rows[j]);
            }
        }
        assert(find_row(rows, id) == Some(rows[i + 1]@));
    }
}

impl CommentStore {
    /// The stored row under `id`, if any.
    pub closed spec fn row(self, id: Seq<char>) -> Option<CommentView> {
        find_row(self.rows@, id)
    }

    /// Well-formed: row ids are unique.
    pub closed spec fn wf(self) -> bool {
        forall|i: int, j: int|
            0 <= i < j < self.rows@.len() ==> (#[trigger] self.rows@[i]).id@ != (
            #[trigger] self.rows@[j]).id@
    }

    /// An empty store.
    pub fn new() -> (r: Self)
        ensures
            r.wf(),
            forall|id: Seq<char>| r.row(id) is None,
    {
        let r = CommentStore { rows: Vec::new() };
        proof {
            assert forall|id: Seq<char>| r.row(id) is None by {
                lemma_find_row_absent(r.rows@, id);
            }
        }
        r
    }

    /// Inserts the record, or on an existing id updates its text and
    /// state while the group stays what the first insert set.
    pub fn upsert(&mut self, comment: Comment)
        requires
            old(self).wf(),
        ensures
            final(self).wf(),
            final(self).row(comment@.id) == Some(
                match old(self).row(comment@.id) {
                    Some(prior) => CommentView {
                        id: comment@.id,
                        group_id: prior.group_id,
                        text: comment@.text,
                        state: comment@.state,
                    },
                    None => comment@,
                },
            ),
            forall|id: Seq<char>|
                id != comment@.id ==> final(self).row(id) == old(self).row(id),
    {
        let n: usize = self.rows.len();
        let mut i: usize = 0;
        while i < n
            invariant
                i <= n,
                n == self.rows@.len(),
                old(self).wf(),
                *self == *old(self),
                forall|j: int| 0 <= j < i ==> (#[trigger] self.rows@[j]).id@ != comment.id@,
            decreases n - i,
        {
            if string_eq_str(&self.rows[i].id, comment.id.as_str()) {
                let ghost olds = self.rows@;
                let entry = vec_index_mut(&mut self.rows, i);
                entry.text = comment.text;
                entry.state = comment.state;
                proof {
                    let news = self.rows@;
                    assert(news[i as int].id@ == comment.id@);
                    assert(news[i as int]@ == (CommentView {
                        id: comment@.id,
                        group_id: olds[i as int]@.group_id,
                        text: comment@.text,
                        state: comment@.state,
                    }));
                    assert(forall|k: int|
                        0 <= k < news.len() && k != i ==> #[trigger] news[k] == olds[k]);
                    lemma_find_row_at(olds, comment.id@, i as int);
                    assert forall|j: int| 0 <= j < i implies (#[trigger] news[j]).id@
                        != comment.id@ by {
                        assert(news[j] == olds[j]);
                    }
                    lemma_find_row_at(news, comment.id@, i as int);
                    assert forall|id: Seq<char>|
                        id != comment@.id implies (*self).row(id) == old(self).row(id) by {
                        match find_row(olds, id) {
                            Some(q) => {
                                lemma_find_row_first_witness(olds, id);
                                let w = choose|w: int|
                                    0 <= w < olds.len() && (#[trigger] olds[w]).id@ == id && (
                                    forall|j2: int|
                                        0 <= j2 < w ==> (#[trigger] olds[j2]).id@ != id)
                                        && find_row(olds, id) == Some(olds[w]@);
                                assert(w != i);
                                assert(news[w] == olds[w]);
                                assert forall|j2: int| 0 <= j2 < w implies (
                                #[trigger] news[j2]).id@ != id by {
                                    if j2 != i {
                                        assert(news[j2] == olds[j2]);
                                    } else {
                                        assert(news[j2].id@ == olds[j2].id@);
                                    }
                                }
                                lemma_find_row_at(news, id, w);
                            },
                            None => {
                                lemma_find_row_characterize(olds, id);
                                assert forall|j2: int| 0 <= j2 < news.len() implies (
                                #[trigger] news[j2]).id@ != id by {
                                    if j2 != i {
                                        assert(news[j2] == olds[j2]);
                                    } else {
                                        assert(news[j2].id@ == olds[j2].id@);
                                    }
                                }
                                lemma_find_row_absent(news, id);
                            },
                        }
                    }
                    assert(olds == old(self).rows@);
                    assert((*self).wf()) by {
                        assert forall|i2: int, j2: int|
                            0 <= i2 < j2 < news.len() implies (#[trigger] news[i2]).id@ != (
                        #[trigger] news[j2]).id@ by {
                            assert(olds[i2].id@ != olds[j2].id@);
                            if i2 == i {
                                assert(news[i2].id@ == comment.id@ && olds[i2].id@ == comment.id@);
                            } else {
                                assert(news[i2] == olds[i2]);
                            }
                            if j2 == i {
                                assert(news[j2].id@ == comment.id@ && olds[j2].id@ == comment.id@);
                            } else {
                                assert(news[j2] == olds[j2]);
                            }
                        }
                    }
                }
                return ;
            }
            i = i + 1;
        }
        let ghost olds = self.rows@;
        proof {
            lemma_find_row_absent(olds, comment.id@);
        }
        let ghost cv = comment@;
        self.rows.push(comment);
        proof {
            let news = self.rows@;
            assert(news =~= olds.push(news[news.len() - 1]));
            assert(news[news.len() - 1]@ == cv);
            assert(news[news.len() - 1].id@ == cv.id);
            assert forall|j: int| 0 <= j < news.len() - 1 implies (#[trigger] news[j]).id@
                != cv.id by {
                assert(news[j] == olds[j]);
            }
            lemma_find_row_at(news, cv.id, news.len() - 1);
            assert forall|id: Seq<char>|
                id != cv.id implies (*self).row(id) == old(self).row(id) by {
                match find_row(olds, id) {
                    Some(q) => {
                        lemma_find_row_first_witness(olds, id);
                        let w = choose|w: int|
                            0 <= w < olds.len() && (#[trigger] olds[w]).id@ == id && (forall|
                                j2: int,
                            |
                                0 <= j2 < w ==> (#[trigger] olds[j2]).id@ != id) && find_row(
                                olds,
                                id,
                            ) == Some(olds[w]@);
                        assert(news[w] == olds[w]);
                        assert forall|j2: int| 0 <= j2 < w implies (#[trigger] news[j2]).id@
                            != id by {
                            assert(news[j2] == olds[j2]);
                        }
                        lemma_find_row_at(news, id, w);
                    },
                    None => {
                        lemma_find_row_characterize(olds, id);
                        assert forall|j2: int| 0 <= j2 < news.len() implies (
                        #[trigger] news[j2]).id@ != id by {
                            if j2 < news.len() - 1 {
                                assert(news[j2] == olds[j2]);
                            }
                        }
                        lemma_find_row_absent(news, id);
                    },
                }
            }
        }
    }

    /// The stored comment under `id`, if any.
    pub fn get_comment(&self, id: &String) -> (r: Option<Comment>)
        ensures
            match r {
                Some(c) => self.row(id@) == Some(c@),
                None => self.row(id@) is None,
            },
    {
        let n: usize = self.rows.len();
        let mut i: usize = 0;
        while i < n
            invariant
                i <= n,
                n == self.rows@.len(),
                forall|j: int| 0 <= j < i ==> (#[trigger] self.rows@[j]).id@ != id@,
            decreases n - i,
        {
            if string_eq_str(&self.rows[i].id, id.as_str()) {
                proof {
                    lemma_find_row_at(self.rows@, id@, i as int);
                }
                return Some(self.rows[i].clone());
            }
            i = i + 1;
        }
        proof {
            lemma_find_row_absent(self.rows@, id@);
        }
        None
    }

    /// One projector step: decode the delivered payload and upsert it.
    /// Success means the write happened and the message's offset may be
    /// committed; any error means nothing changed and the offset must not
    /// be committed, so the record is delivered again.
    pub fn handle_message(&mut self, payload: Option<&[u8]>, offset: i64) -> (r: Result<
        (),
        HotStorageError,
    >)
        requires
            old(self).wf(),
        ensures
            final(self).wf(),
            match r {
                Ok(u) => payload matches Some(p) && spec_decode_comment(p@) matches Ok(c) && {
                    &&& final(self).row(c.id) == Some(
                        match old(self).row(c.id) {
                            Some(prior) => CommentView {
                                id: c.id,
                                group_id: prior.group_id,
                                text: c.text,
                                state: c.state,
                            },
                            None => c,
                        },
                    )
                    &&& forall|id: Seq<char>|
                        id != c.id ==> final(self).row(id) == old(self).row(id)
                },
                Err(e) => (forall|id: Seq<char>| final(self).row(id) == old(self).row(id))
                    && match e {
                    HotStorageError::MissingPayload(o) => payload is None && o == offset,
                    HotStorageError::Encoding(de) => payload matches Some(p)
                        && spec_decode_comment(p@) == Err::<CommentView, DecodeError>(de),
                },
            },
    {
        match payload {
            None => Err(HotStorageError::MissingPayload(offset)),
            Some(bytes) => {
                match Comment::decode(bytes) {
                    Err(e) => Err(HotStorageError::Encoding(e)),
                    Ok(comment) => {
                        self.upsert(comment);
                        Ok(())
                    },
                }
            },
        }
    }
}

} // verus!
