//! What holds of commands run one after another against a store, as the
//! store's lock orders them.
use crate::frame::{text_of, FrameModel};
use crate::handler::{
    bulk_text, command_of, miss, name_bytes, reply_to, store_after, upper, word_get, word_set,
    Refusal, Request, Verb,
};
use vstd::prelude::*;
use vstd::utf8::encode_utf8;

verus! {

/// What a store holding `db` holds once `cmds` have run, first to last.
pub open spec fn run(cmds: Seq<Request>, db: Map<Seq<char>, Seq<char>>) -> Map<Seq<char>, Seq<char>>
    decreases cmds.len(),
{
    if cmds.len() == 0 {
        db
    } else {
        store_after(cmds.last(), run(cmds.drop_last(), db))
    }
}

pub open spec fn sets_key(c: Request, k: Seq<char>) -> bool {
    c matches Request::SET(key, _) && key == k
}

/// A key that no command has set reads as a miss, however many commands of
/// other kinds (reads among them) have run before.
pub proof fn law_miss_until_set(db: Map<Seq<char>, Seq<char>>, k: Seq<char>, cmds: Seq<Request>)
    requires
        !db.contains_key(k),
        forall|i: int| 0 <= i < cmds.len() ==> !sets_key(#[trigger] cmds[i], k),
    ensures
        !run(cmds, db).contains_key(k),
        reply_to(Request::GET(k), run(cmds, db)) == Ok::<FrameModel, Refusal>(
            FrameModel::Simple(miss()),
        ),
    decreases cmds.len(),
{
    if cmds.len() > 0 {
        let head = cmds.drop_last();
        assert forall|i: int| 0 <= i < head.len() implies !sets_key(#[trigger] head[i], k) by {
            assert(head[i] == cmds[i]);
        }
        law_miss_until_set(db, k, head);
        assert(!sets_key(cmds[cmds.len() - 1], k));
    }
}

/// A command that a frame stands for always runs: its reply is no error.
pub proof fn law_commands_run(m: FrameModel, db: Map<Seq<char>, Seq<char>>)
    requires
        command_of(m) is Ok,
    ensures
        reply_to(command_of(m)->Ok_0, db) is Ok,
{
    if let Request::SET(k, v) = command_of(m)->Ok_0 {
        let items = m->Array_0;
        assert(v == items.subrange(1, items.len() as int)[1]);
        assert(bulk_text(v) is Some);
    }
}

/// A read right after a write of the same key gives the value written.
pub proof fn law_write_then_read(db: Map<Seq<char>, Seq<char>>, k: Seq<char>, v: FrameModel)
    requires
        text_of(v) is Some,
    ensures
        reply_to(Request::GET(k), store_after(Request::SET(k, v), db)) == Ok::<FrameModel, Refusal>(
            FrameModel::Bulk(encode_utf8(text_of(v)->Some_0)),
        ),
{
}

/// `GET` with other than one argument, and `SET` with other than two, are
/// refused as an arity mismatch: no command comes of them.
pub proof fn law_arity(items: Seq<FrameModel>)
    requires
        items.len() >= 1,
        name_bytes(items[0]) is Some,
    ensures
        upper(name_bytes(items[0])->Some_0) == word_get() && items.len() - 1 != 1 ==> command_of(
            FrameModel::Array(items),
        ) == Err::<Request, Refusal>(Refusal::ArityMismatch(Verb::GET, 1, (items.len() - 1) as nat)),
        upper(name_bytes(items[0])->Some_0) == word_set() && items.len() - 1 != 2 ==> command_of(
            FrameModel::Array(items),
        ) == Err::<Request, Refusal>(Refusal::ArityMismatch(Verb::SET, 2, (items.len() - 1) as nat)),
{
    assert(word_get() != crate::handler::word_ping());
    assert(word_set() != crate::handler::word_ping());
    assert(word_set() != word_get()) by {
        assert(word_set()[0] != word_get()[0]);
    }
}

/// Commands that all write one key leave every other key as it was.
proof fn lemma_writes_keep_other_keys(db: Map<Seq<char>, Seq<char>>, k: Seq<char>, cmds: Seq<Request>)
    requires
        forall|i: int| 0 <= i < cmds.len() ==> sets_key(#[trigger] cmds[i], k),
    ensures
        run(cmds, db).remove(k) == db.remove(k),
    decreases cmds.len(),
{
    if cmds.len() > 0 {
        let head = cmds.drop_last();
        assert forall|i: int| 0 <= i < head.len() implies sets_key(#[trigger] head[i], k) by {
            assert(head[i] == cmds[i]);
        }
        lemma_writes_keep_other_keys(db, k, head);
        assert(sets_key(cmds[cmds.len() - 1], k));
        let before = run(head, db);
        assert(run(cmds, db).remove(k) =~= before.remove(k));
    }
}

/// Writes of one key, in whatever order the lock admits them, leave the
/// key holding exactly the value of one of them, the last, and every other
/// key as it was.
pub proof fn law_serialized_writes(db: Map<Seq<char>, Seq<char>>, k: Seq<char>, cmds: Seq<Request>)
    requires
        cmds.len() > 0,
        forall|i: int|
            0 <= i < cmds.len() ==> sets_key(#[trigger] cmds[i], k) && text_of(cmds[i]->SET_1) is Some,
    ensures
        run(cmds, db).contains_key(k),
        run(cmds, db)[k] == text_of(cmds.last()->SET_1)->Some_0,
        exists|i: int| 0 <= i < cmds.len() && run(cmds, db)[k] == text_of(#[trigger] cmds[i]->SET_1)->Some_0,
        run(cmds, db).remove(k) == db.remove(k),
{
    lemma_writes_keep_other_keys(db, k, cmds);
    let last = cmds.len() - 1;
    assert(sets_key(cmds[last], k) && text_of(cmds[last]->SET_1) is Some);
    assert(run(cmds, db)[k] == text_of(cmds[last]->SET_1)->Some_0);
}

} // verus!
