//! Where everything lives on disk: the paths of the engine's directories
//! and files under one root, and the lists of directories and empty files
//! each part of the tree starts with.
use crate::identity::{Cid, Eid, Fid, Pid};
use crate::text::{dec_padded, decimal_padded, hex_padded};
use vstd::prelude::*;
use vstd::string::*;

verus! {

/// A path with `part` appended as `PathBuf::join` appends it: an absolute
/// part replaces the path, and a separator goes between unless the path is
/// empty or already ends with one.
pub open spec fn join_path(base: Seq<char>, part: Seq<char>) -> Seq<char> {
    if part.len() > 0 && part[0] == '/' {
        part
    } else if base.len() == 0 {
        part
    } else if base.last() == '/' {
        base + part
    } else {
        base + "/"@ + part
    }
}

/// `base` with `part` appended (see `join_path`).
pub fn join(base: &str, part: &str) -> (s: String)
    ensures
        s@ == join_path(base@, part@),
{
    proof {
        reveal_strlit("/");
    }
    let pl = part.unicode_len();
    if pl > 0 && part.get_char(0) == '/' {
        return String::from_str(part);
    }
    let bl = base.unicode_len();
    if bl == 0 {
        return String::from_str(part);
    }
    let mut s = String::from_str(base);
    if base.get_char(bl - 1) != '/' {
        s.append("/");
    }
    s.append(part);
    s
}

/// The texts of the paths.
pub open spec fn strs(v: Seq<String>) -> Seq<Seq<char>> {
    v.map_values(|s: String| s@)
}

fn append_paths(out: &mut Vec<String>, more: &mut Vec<String>)
    ensures
        strs(final(out)@) == strs(old(out)@) + strs(old(more)@),
{
    let ghost a = strs(out@);
    let ghost b = strs(more@);
    out.append(more);
    proof {
        assert(strs(out@) =~= a + b);
    }
}

fn push_path(out: &mut Vec<String>, p: String)
    ensures
        strs(final(out)@) == strs(old(out)@).push(p@),
{
    let ghost v = p@;
    out.push(p);
    proof {
        assert(strs(out@) =~= strs(old(out)@).push(v));
    }
}

/// The directories the layout root holds.
pub open spec fn root_dirs(root: Seq<char>) -> Seq<Seq<char>> {
    seq![
        join_path(root, "catalog"@),
        join_path(root, "config"@),
        join_path(root, "runtime"@),
        join_path(root, "logs"@),
        join_path(root, "data"@),
        join_path(join_path(root, "runtime"@), "sockets"@),
        join_path(join_path(root, "runtime"@), "locks"@),
        join_path(join_path(root, "runtime"@), "sessions"@),
    ]
}

/// The directories the layout root holds.
fn root_dirs_of(root: &str) -> (out: Vec<String>)
    ensures
        strs(out@) == root_dirs(root@),
{
    let mut out: Vec<String> = Vec::new();
    let p0 = join(root, "catalog");
    push_path(&mut out, p0);
    let p0 = join(root, "config");
    push_path(&mut out, p0);
    let p0 = join(root, "runtime");
    push_path(&mut out, p0);
    let p0 = join(root, "logs");
    push_path(&mut out, p0);
    let p0 = join(root, "data");
    push_path(&mut out, p0);
    let p0 = join(root, "runtime");
    let p1 = join(p0.as_str(), "sockets");
    push_path(&mut out, p1);
    let p0 = join(root, "runtime");
    let p1 = join(p0.as_str(), "locks");
    push_path(&mut out, p1);
    let p0 = join(root, "runtime");
    let p1 = join(p0.as_str(), "sessions");
    push_path(&mut out, p1);
    out
}

/// The empty files the layout root holds: part 1 of 2.
pub open spec fn root_files_0(root: Seq<char>) -> Seq<Seq<char>> {
    seq![
        join_path(join_path(root, "config"@), "engine.toml"@),
        join_path(join_path(root, "config"@), "cache.toml"@),
        join_path(join_path(root, "config"@), "compaction.toml"@),
        join_path(join_path(root, "config"@), "wal.toml"@),
        join_path(join_path(root, "config"@), "tiers.toml"@),
        join_path(join_path(root, "runtime"@), "pid"@),
        join_path(join_path(root, "logs"@), "engine.log"@),
        join_path(join_path(root, "logs"@), "wal.log"@),
        join_path(join_path(root, "logs"@), "compaction.log"@),
        join_path(join_path(root, "logs"@), "query.log"@),
        join_path(join_path(root, "logs"@), "recovery.log"@),
        join_path(join_path(root, "catalog"@), "collections.cat"@),
        join_path(join_path(root, "catalog"@), "entities.cat"@),
        join_path(join_path(root, "catalog"@), "indexes.cat"@),
        join_path(join_path(root, "catalog"@), "vector_models.cat"@),
        join_path(join_path(root, "catalog"@), "fulltext.cat"@),
    ]
}

/// The empty files the layout root holds: part 1 of 2.
fn root_files_0_of(root: &str) -> (out: Vec<String>)
    ensures
        strs(out@) == root_files_0(root@),
{
    let mut out: Vec<String> = Vec::new();
    let p0 = join(root, "config");
    let p1 = join(p0.as_str(), "engine.toml");
    push_path(&mut out, p1);
    let p0 = join(root, "config");
    let p1 = join(p0.as_str(), "cache.toml");
    push_path(&mut out, p1);
    let p0 = join(root, "config");
    let p1 = join(p0.as_str(), "compaction.toml");
    push_path(&mut out, p1);
    let p0 = join(root, "config");
    let p1 = join(p0.as_str(), "wal.toml");
    push_path(&mut out, p1);
    let p0 = join(root, "config");
    let p1 = join(p0.as_str(), "tiers.toml");
    push_path(&mut out, p1);
    let p0 = join(root, "runtime");
    let p1 = join(p0.as_str(), "pid");
    push_path(&mut out, p1);
    let p0 = join(root, "logs");
    let p1 = join(p0.as_str(), "engine.log");
    push_path(&mut out, p1);
    let p0 = join(root, "logs");
    let p1 = join(p0.as_str(), "wal.log");
    push_path(&mut out, p1);
    let p0 = join(root, "logs");
    let p1 = join(p0.as_str(), "compaction.log");
    push_path(&mut out, p1);
    let p0 = join(root, "logs");
    let p1 = join(p0.as_str(), "query.log");
    push_path(&mut out, p1);
    let p0 = join(root, "logs");
    let p1 = join(p0.as_str(), "recovery.log");
    push_path(&mut out, p1);
    let p0 = join(root, "catalog");
    let p1 = join(p0.as_str(), "collections.cat");
    push_path(&mut out, p1);
    let p0 = join(root, "catalog");
    let p1 = join(p0.as_str(), "entities.cat");
    push_path(&mut out, p1);
    let p0 = join(root, "catalog");
    let p1 = join(p0.as_str(), "indexes.cat");
    push_path(&mut out, p1);
    let p0 = join(root, "catalog");
    let p1 = join(p0.as_str(), "vector_models.cat");
    push_path(&mut out, p1);
    let p0 = join(root, "catalog");
    let p1 = join(p0.as_str(), "fulltext.cat");
    push_path(&mut out, p1);
    out
}

/// The empty files the layout root holds: part 2 of 2.
pub open spec fn root_files_1(root: Seq<char>) -> Seq<Seq<char>> {
    seq![
        join_path(join_path(root, "catalog"@), "graph.cat"@),
        join_path(join_path(root, "catalog"@), "shards.cat"@),
        join_path(join_path(root, "catalog"@), "users.cat"@),
    ]
}

/// The empty files the layout root holds: part 2 of 2.
fn root_files_1_of(root: &str) -> (out: Vec<String>)
    ensures
        strs(out@) == root_files_1(root@),
{
    let mut out: Vec<String> = Vec::new();
    let p0 = join(root, "catalog");
    let p1 = join(p0.as_str(), "graph.cat");
    push_path(&mut out, p1);
    let p0 = join(root, "catalog");
    let p1 = join(p0.as_str(), "shards.cat");
    push_path(&mut out, p1);
    let p0 = join(root, "catalog");
    let p1 = join(p0.as_str(), "users.cat");
    push_path(&mut out, p1);
    out
}

/// The empty files the layout root holds.
pub open spec fn root_files(root: Seq<char>) -> Seq<Seq<char>> {
    root_files_0(root) + root_files_1(root)
}

/// The empty files the layout root holds.
fn root_files_of(root: &str) -> (out: Vec<String>)
    ensures
        strs(out@) == root_files(root@),
{
    let mut v0 = root_files_0_of(root);
    let mut v1 = root_files_1_of(root);
    append_paths(&mut v0, &mut v1);
    v0
}

/// The directories a frame holds.
pub open spec fn frame_dirs(frame: Seq<char>) -> Seq<Seq<char>> {
    seq![
        join_path(frame, "pages"@),
    ]
}

/// The directories a frame holds.
fn frame_dirs_of(frame: &str) -> (out: Vec<String>)
    ensures
        strs(out@) == frame_dirs(frame@),
{
    let mut out: Vec<String> = Vec::new();
    let p0 = join(frame, "pages");
    push_path(&mut out, p0);
    out
}

/// The empty files a frame holds.
pub open spec fn frame_files(frame: Seq<char>) -> Seq<Seq<char>> {
    seq![
        join_path(frame, "frame.meta"@),
        join_path(frame, "frame.stats"@),
        join_path(frame, "frame.idx"@),
        join_path(frame, "frame.bloom"@),
        join_path(frame, "frame.minmax"@),
        join_path(frame, "frame.free"@),
    ]
}

/// The empty files a frame holds.
fn frame_files_of(frame: &str) -> (out: Vec<String>)
    ensures
        strs(out@) == frame_files(frame@),
{
    let mut out: Vec<String> = Vec::new();
    let p0 = join(frame, "frame.meta");
    push_path(&mut out, p0);
    let p0 = join(frame, "frame.stats");
    push_path(&mut out, p0);
    let p0 = join(frame, "frame.idx");
    push_path(&mut out, p0);
    let p0 = join(frame, "frame.bloom");
    push_path(&mut out, p0);
    let p0 = join(frame, "frame.minmax");
    push_path(&mut out, p0);
    let p0 = join(frame, "frame.free");
    push_path(&mut out, p0);
    out
}

/// The directories a collection holds: part 1 of 2.
pub open spec fn collection_dirs_0(collection: Seq<char>) -> Seq<Seq<char>> {
    seq![
        join_path(collection, "meta"@),
        join_path(join_path(collection, "wal"@), "active"@),
        join_path(join_path(collection, "wal"@), "archived"@),
        join_path(join_path(join_path(collection, "kv"@), "levels"@), "L0"@),
        join_path(join_path(join_path(collection, "kv"@), "levels"@), "L1"@),
        join_path(join_path(join_path(collection, "kv"@), "levels"@), "L2"@),
        join_path(join_path(join_path(collection, "kv"@), "levels"@), "Ln"@),
        join_path(join_path(collection, "kv"@), "critical"@),
        join_path(join_path(collection, "kv"@), "secondary"@),
        join_path(join_path(collection, "kv"@), "cache"@),
        join_path(collection, "entities"@),
        join_path(join_path(collection, "pit"@), "commits"@),
        join_path(join_path(collection, "pit"@), "branches"@),
        join_path(join_path(collection, "pit"@), "snapshots"@),
        join_path(join_path(collection, "pit"@), "timelines"@),
        join_path(join_path(collection, "pit"@), "gc"@),
    ]
}

/// The directories a collection holds: part 1 of 2.
fn collection_dirs_0_of(collection: &str) -> (out: Vec<String>)
    ensures
        strs(out@) == collection_dirs_0(collection@),
{
    let mut out: Vec<String> = Vec::new();
    let p0 = join(collection, "meta");
    push_path(&mut out, p0);
    let p0 = join(collection, "wal");
    let p1 = join(p0.as_str(), "active");
    push_path(&mut out, p1);
    let p0 = join(collection, "wal");
    let p1 = join(p0.as_str(), "archived");
    push_path(&mut out, p1);
    let p0 = join(collection, "kv");
    let p1 = join(p0.as_str(), "levels");
    let p2 = join(p1.as_str(), "L0");
    push_path(&mut out, p2);
    let p0 = join(collection, "kv");
    let p1 = join(p0.as_str(), "levels");
    let p2 = join(p1.as_str(), "L1");
    push_path(&mut out, p2);
    let p0 = join(collection, "kv");
    let p1 = join(p0.as_str(), "levels");
    let p2 = join(p1.as_str(), "L2");
    push_path(&mut out, p2);
    let p0 = join(collection, "kv");
    let p1 = join(p0.as_str(), "levels");
    let p2 = join(p1.as_str(), "Ln");
    push_path(&mut out, p2);
    let p0 = join(collection, "kv");
    let p1 = join(p0.as_str(), "critical");
    push_path(&mut out, p1);
    let p0 = join(collection, "kv");
    let p1 = join(p0.as_str(), "secondary");
    push_path(&mut out, p1);
    let p0 = join(collection, "kv");
    let p1 = join(p0.as_str(), "cache");
    push_path(&mut out, p1);
    let p0 = join(collection, "entities");
    push_path(&mut out, p0);
    let p0 = join(collection, "pit");
    let p1 = join(p0.as_str(), "commits");
    push_path(&mut out, p1);
    let p0 = join(collection, "pit");
    let p1 = join(p0.as_str(), "branches");
    push_path(&mut out, p1);
    let p0 = join(collection, "pit");
    let p1 = join(p0.as_str(), "snapshots");
    push_path(&mut out, p1);
    let p0 = join(collection, "pit");
    let p1 = join(p0.as_str(), "timelines");
    push_path(&mut out, p1);
    let p0 = join(collection, "pit");
    let p1 = join(p0.as_str(), "gc");
    push_path(&mut out, p1);
    out
}

/// The directories a collection holds: part 2 of 2.
pub open spec fn collection_dirs_1(collection: Seq<char>) -> Seq<Seq<char>> {
    seq![
        join_path(join_path(collection, "pit"@), "packfiles"@),
        join_path(join_path(collection, "pit"@), "recovery"@),
        join_path(join_path(collection, "tiers"@), "hot"@),
        join_path(join_path(collection, "tiers"@), "warm"@),
        join_path(join_path(collection, "tiers"@), "cold"@),
        join_path(join_path(collection, "ops"@), "transactions"@),
        join_path(join_path(collection, "ops"@), "checkpoints"@),
        join_path(join_path(collection, "ops"@), "recovery"@),
        join_path(join_path(collection, "ops"@), "metrics"@),
        join_path(join_path(collection, "ops"@), "planner"@),
        join_path(join_path(collection, "ops"@), "scheduler"@),
        join_path(join_path(collection, "ops"@), "telemetry"@),
        join_path(join_path(collection, "tmp"@), "compaction"@),
        join_path(join_path(collection, "tmp"@), "restore"@),
        join_path(join_path(collection, "tmp"@), "import"@),
        join_path(join_path(collection, "tmp"@), "rebuild"@),
    ]
}

/// The directories a collection holds: part 2 of 2.
fn collection_dirs_1_of(collection: &str) -> (out: Vec<String>)
    ensures
        strs(out@) == collection_dirs_1(collection@),
{
    let mut out: Vec<String> = Vec::new();
    let p0 = join(collection, "pit");
    let p1 = join(p0.as_str(), "packfiles");
    push_path(&mut out, p1);
    let p0 = join(collection, "pit");
    let p1 = join(p0.as_str(), "recovery");
    push_path(&mut out, p1);
    let p0 = join(collection, "tiers");
    let p1 = join(p0.as_str(), "hot");
    push_path(&mut out, p1);
    let p0 = join(collection, "tiers");
    let p1 = join(p0.as_str(), "warm");
    push_path(&mut out, p1);
    let p0 = join(collection, "tiers");
    let p1 = join(p0.as_str(), "cold");
    push_path(&mut out, p1);
    let p0 = join(collection, "ops");
    let p1 = join(p0.as_str(), "transactions");
    push_path(&mut out, p1);
    let p0 = join(collection, "ops");
    let p1 = join(p0.as_str(), "checkpoints");
    push_path(&mut out, p1);
    let p0 = join(collection, "ops");
    let p1 = join(p0.as_str(), "recovery");
    push_path(&mut out, p1);
    let p0 = join(collection, "ops");
    let p1 = join(p0.as_str(), "metrics");
    push_path(&mut out, p1);
    let p0 = join(collection, "ops");
    let p1 = join(p0.as_str(), "planner");
    push_path(&mut out, p1);
    let p0 = join(collection, "ops");
    let p1 = join(p0.as_str(), "scheduler");
    push_path(&mut out, p1);
    let p0 = join(collection, "ops");
    let p1 = join(p0.as_str(), "telemetry");
    push_path(&mut out, p1);
    let p0 = join(collection, "tmp");
    let p1 = join(p0.as_str(), "compaction");
    push_path(&mut out, p1);
    let p0 = join(collection, "tmp");
    let p1 = join(p0.as_str(), "restore");
    push_path(&mut out, p1);
    let p0 = join(collection, "tmp");
    let p1 = join(p0.as_str(), "import");
    push_path(&mut out, p1);
    let p0 = join(collection, "tmp");
    let p1 = join(p0.as_str(), "rebuild");
    push_path(&mut out, p1);
    out
}

/// The directories a collection holds.
pub open spec fn collection_dirs(collection: Seq<char>) -> Seq<Seq<char>> {
    collection_dirs_0(collection) + collection_dirs_1(collection)
}

/// The directories a collection holds.
fn collection_dirs_of(collection: &str) -> (out: Vec<String>)
    ensures
        strs(out@) == collection_dirs(collection@),
{
    let mut v0 = collection_dirs_0_of(collection);
    let mut v1 = collection_dirs_1_of(collection);
    append_paths(&mut v0, &mut v1);
    v0
}

/// The empty files a collection holds: part 1 of 2.
pub open spec fn collection_files_0(collection: Seq<char>) -> Seq<Seq<char>> {
    seq![
        join_path(join_path(collection, "meta"@), "collection.meta"@),
        join_path(join_path(collection, "meta"@), "collection.stats"@),
        join_path(join_path(collection, "meta"@), "collection.config"@),
        join_path(join_path(collection, "meta"@), "retention.policy"@),
        join_path(join_path(collection, "wal"@), "wal.meta"@),
        join_path(join_path(collection, "wal"@), "checkpoint"@),
        join_path(join_path(collection, "kv"@), "manifest"@),
        join_path(join_path(collection, "kv"@), "memtable.wal"@),
        join_path(join_path(join_path(collection, "kv"@), "critical"@), "rid_to_slot.kv"@),
        join_path(join_path(join_path(collection, "kv"@), "critical"@), "rid_to_page.kv"@),
        join_path(join_path(join_path(collection, "kv"@), "critical"@), "rid_to_entity.kv"@),
        join_path(join_path(join_path(collection, "kv"@), "critical"@), "locks.kv"@),
        join_path(join_path(join_path(collection, "kv"@), "critical"@), "commit_state.kv"@),
        join_path(join_path(join_path(collection, "kv"@), "critical"@), "sequence.kv"@),
        join_path(join_path(join_path(collection, "kv"@), "secondary"@), "value_to_rid.kv"@),
        join_path(join_path(join_path(collection, "kv"@), "secondary"@), "edge_out.kv"@),
    ]
}

/// The empty files a collection holds: part 1 of 2.
fn collection_files_0_of(collection: &str) -> (out: Vec<String>)
    ensures
        strs(out@) == collection_files_0(collection@),
{
    let mut out: Vec<String> = Vec::new();
    let p0 = join(collection, "meta");
    let p1 = join(p0.as_str(), "collection.meta");
    push_path(&mut out, p1);
    let p0 = join(collection, "meta");
    let p1 = join(p0.as_str(), "collection.stats");
    push_path(&mut out, p1);
    let p0 = join(collection, "meta");
    let p1 = join(p0.as_str(), "collection.config");
    push_path(&mut out, p1);
    let p0 = join(collection, "meta");
    let p1 = join(p0.as_str(), "retention.policy");
    push_path(&mut out, p1);
    let p0 = join(collection, "wal");
    let p1 = join(p0.as_str(), "wal.meta");
    push_path(&mut out, p1);
    let p0 = join(collection, "wal");
    let p1 = join(p0.as_str(), "checkpoint");
    push_path(&mut out, p1);
    let p0 = join(collection, "kv");
    let p1 = join(p0.as_str(), "manifest");
    push_path(&mut out, p1);
    let p0 = join(collection, "kv");
    let p1 = join(p0.as_str(), "memtable.wal");
    push_path(&mut out, p1);
    let p0 = join(collection, "kv");
    let p1 = join(p0.as_str(), "critical");
    let p2 = join(p1.as_str(), "rid_to_slot.kv");
    push_path(&mut out, p2);
    let p0 = join(collection, "kv");
    let p1 = join(p0.as_str(), "critical");
    let p2 = join(p1.as_str(), "rid_to_page.kv");
    push_path(&mut out, p2);
    let p0 = join(collection, "kv");
    let p1 = join(p0.as_str(), "critical");
    let p2 = join(p1.as_str(), "rid_to_entity.kv");
    push_path(&mut out, p2);
    let p0 = join(collection, "kv");
    let p1 = join(p0.as_str(), "critical");
    let p2 = join(p1.as_str(), "locks.kv");
    push_path(&mut out, p2);
    let p0 = join(collection, "kv");
    let p1 = join(p0.as_str(), "critical");
    let p2 = join(p1.as_str(), "commit_state.kv");
    push_path(&mut out, p2);
    let p0 = join(collection, "kv");
    let p1 = join(p0.as_str(), "critical");
    let p2 = join(p1.as_str(), "sequence.kv");
    push_path(&mut out, p2);
    let p0 = join(collection, "kv");
    let p1 = join(p0.as_str(), "secondary");
    let p2 = join(p1.as_str(), "value_to_rid.kv");
    push_path(&mut out, p2);
    let p0 = join(collection, "kv");
    let p1 = join(p0.as_str(), "secondary");
    let p2 = join(p1.as_str(), "edge_out.kv");
    push_path(&mut out, p2);
    out
}

/// The empty files a collection holds: part 2 of 2.
pub open spec fn collection_files_1(collection: Seq<char>) -> Seq<Seq<char>> {
    seq![
        join_path(join_path(join_path(collection, "kv"@), "secondary"@), "edge_in.kv"@),
        join_path(join_path(join_path(collection, "kv"@), "secondary"@), "text_lookup.kv"@),
        join_path(join_path(join_path(collection, "kv"@), "secondary"@), "vector_lookup.kv"@),
        join_path(join_path(join_path(collection, "kv"@), "secondary"@), "time_to_commit.kv"@),
        join_path(join_path(join_path(collection, "kv"@), "cache"@), "bloom.filters"@),
        join_path(join_path(join_path(collection, "kv"@), "cache"@), "hot.keys"@),
        join_path(join_path(join_path(collection, "kv"@), "cache"@), "key.stats"@),
    ]
}

/// The empty files a collection holds: part 2 of 2.
fn collection_files_1_of(collection: &str) -> (out: Vec<String>)
    ensures
        strs(out@) == collection_files_1(collection@),
{
    let mut out: Vec<String> = Vec::new();
    let p0 = join(collection, "kv");
    let p1 = join(p0.as_str(), "secondary");
    let p2 = join(p1.as_str(), "edge_in.kv");
    push_path(&mut out, p2);
    let p0 = join(collection, "kv");
    let p1 = join(p0.as_str(), "secondary");
    let p2 = join(p1.as_str(), "text_lookup.kv");
    push_path(&mut out, p2);
    let p0 = join(collection, "kv");
    let p1 = join(p0.as_str(), "secondary");
    let p2 = join(p1.as_str(), "vector_lookup.kv");
    push_path(&mut out, p2);
    let p0 = join(collection, "kv");
    let p1 = join(p0.as_str(), "secondary");
    let p2 = join(p1.as_str(), "time_to_commit.kv");
    push_path(&mut out, p2);
    let p0 = join(collection, "kv");
    let p1 = join(p0.as_str(), "cache");
    let p2 = join(p1.as_str(), "bloom.filters");
    push_path(&mut out, p2);
    let p0 = join(collection, "kv");
    let p1 = join(p0.as_str(), "cache");
    let p2 = join(p1.as_str(), "hot.keys");
    push_path(&mut out, p2);
    let p0 = join(collection, "kv");
    let p1 = join(p0.as_str(), "cache");
    let p2 = join(p1.as_str(), "key.stats");
    push_path(&mut out, p2);
    out
}

/// The empty files a collection holds.
pub open spec fn collection_files(collection: Seq<char>) -> Seq<Seq<char>> {
    collection_files_0(collection) + collection_files_1(collection)
}

/// The empty files a collection holds.
fn collection_files_of(collection: &str) -> (out: Vec<String>)
    ensures
        strs(out@) == collection_files(collection@),
{
    let mut v0 = collection_files_0_of(collection);
    let mut v1 = collection_files_1_of(collection);
    append_paths(&mut v0, &mut v1);
    v0
}

/// The directories an entity holds: part 1 of 4.
pub open spec fn entity_dirs_0(entity: Seq<char>) -> Seq<Seq<char>> {
    seq![
        entity,
        join_path(join_path(entity, "schema"@), "sql"@),
        join_path(join_path(join_path(entity, "schema"@), "sql"@), "fixed_attrs"@),
        join_path(join_path(entity, "schema"@), "nosql"@),
        join_path(join_path(join_path(entity, "schema"@), "nosql"@), "dynamic_attrs"@),
        join_path(join_path(entity, "pages"@), "frames"@),
        join_path(entity, "slots"@),
        join_path(join_path(join_path(join_path(entity, "overflow"@), "0001"@), "0001"@), "values"@),
        join_path(entity, "overflow"@),
        join_path(join_path(entity, "indexes"@), "primary"@),
        join_path(join_path(join_path(entity, "indexes"@), "primary"@), "btree"@),
        join_path(join_path(join_path(entity, "indexes"@), "primary"@), "hash"@),
        join_path(join_path(entity, "indexes"@), "secondary"@),
        join_path(join_path(join_path(entity, "indexes"@), "secondary"@), "range"@),
        join_path(join_path(join_path(entity, "indexes"@), "secondary"@), "bitmap"@),
        join_path(join_path(join_path(entity, "indexes"@), "secondary"@), "hash"@),
    ]
}

/// The directories an entity holds: part 1 of 4.
fn entity_dirs_0_of(entity: &str) -> (out: Vec<String>)
    ensures
        strs(out@) == entity_dirs_0(entity@),
{
    let mut out: Vec<String> = Vec::new();
    push_path(&mut out, String::from_str(entity));
    let p0 = join(entity, "schema");
    let p1 = join(p0.as_str(), "sql");
    push_path(&mut out, p1);
    let p0 = join(entity, "schema");
    let p1 = join(p0.as_str(), "sql");
    let p2 = join(p1.as_str(), "fixed_attrs");
    push_path(&mut out, p2);
    let p0 = join(entity, "schema");
    let p1 = join(p0.as_str(), "nosql");
    push_path(&mut out, p1);
    let p0 = join(entity, "schema");
    let p1 = join(p0.as_str(), "nosql");
    let p2 = join(p1.as_str(), "dynamic_attrs");
    push_path(&mut out, p2);
    let p0 = join(entity, "pages");
    let p1 = join(p0.as_str(), "frames");
    push_path(&mut out, p1);
    let p0 = join(entity, "slots");
    push_path(&mut out, p0);
    let p0 = join(entity, "overflow");
    let p1 = join(p0.as_str(), "0001");
    let p2 = join(p1.as_str(), "0001");
    let p3 = join(p2.as_str(), "values");
    push_path(&mut out, p3);
    let p0 = join(entity, "overflow");
    push_path(&mut out, p0);
    let p0 = join(entity, "indexes");
    let p1 = join(p0.as_str(), "primary");
    push_path(&mut out, p1);
    let p0 = join(entity, "indexes");
    let p1 = join(p0.as_str(), "primary");
    let p2 = join(p1.as_str(), "btree");
    push_path(&mut out, p2);
    let p0 = join(entity, "indexes");
    let p1 = join(p0.as_str(), "primary");
    let p2 = join(p1.as_str(), "hash");
    push_path(&mut out, p2);
    let p0 = join(entity, "indexes");
    let p1 = join(p0.as_str(), "secondary");
    push_path(&mut out, p1);
    let p0 = join(entity, "indexes");
    let p1 = join(p0.as_str(), "secondary");
    let p2 = join(p1.as_str(), "range");
    push_path(&mut out, p2);
    let p0 = join(entity, "indexes");
    let p1 = join(p0.as_str(), "secondary");
    let p2 = join(p1.as_str(), "bitmap");
    push_path(&mut out, p2);
    let p0 = join(entity, "indexes");
    let p1 = join(p0.as_str(), "secondary");
    let p2 = join(p1.as_str(), "hash");
    push_path(&mut out, p2);
    out
}

/// The directories an entity holds: part 2 of 4.
pub open spec fn entity_dirs_1(entity: Seq<char>) -> Seq<Seq<char>> {
    seq![
        join_path(join_path(join_path(entity, "indexes"@), "secondary"@), "composite"@),
        join_path(join_path(join_path(entity, "indexes"@), "secondary"@), "unique"@),
        join_path(join_path(entity, "indexes"@), "text"@),
        join_path(join_path(entity, "indexes"@), "vector"@),
        join_path(join_path(join_path(entity, "indexes"@), "vector"@), "embeddings"@),
        join_path(join_path(entity, "indexes"@), "graph"@),
        join_path(entity, "vectors"@),
        join_path(join_path(entity, "vectors"@), "models"@),
        join_path(join_path(entity, "vectors"@), "pages"@),
        join_path(join_path(entity, "vectors"@), "sparse"@),
        join_path(join_path(entity, "vectors"@), "quantized"@),
        join_path(entity, "fulltext"@),
        join_path(join_path(entity, "fulltext"@), "pages"@),
        join_path(join_path(entity, "fulltext"@), "postings"@),
        join_path(entity, "graph"@),
        join_path(join_path(entity, "graph"@), "nodes"@),
    ]
}

/// The directories an entity holds: part 2 of 4.
fn entity_dirs_1_of(entity: &str) -> (out: Vec<String>)
    ensures
        strs(out@) == entity_dirs_1(entity@),
{
    let mut out: Vec<String> = Vec::new();
    let p0 = join(entity, "indexes");
    let p1 = join(p0.as_str(), "secondary");
    let p2 = join(p1.as_str(), "composite");
    push_path(&mut out, p2);
    let p0 = join(entity, "indexes");
    let p1 = join(p0.as_str(), "secondary");
    let p2 = join(p1.as_str(), "unique");
    push_path(&mut out, p2);
    let p0 = join(entity, "indexes");
    let p1 = join(p0.as_str(), "text");
    push_path(&mut out, p1);
    let p0 = join(entity, "indexes");
    let p1 = join(p0.as_str(), "vector");
    push_path(&mut out, p1);
    let p0 = join(entity, "indexes");
    let p1 = join(p0.as_str(), "vector");
    let p2 = join(p1.as_str(), "embeddings");
    push_path(&mut out, p2);
    let p0 = join(entity, "indexes");
    let p1 = join(p0.as_str(), "graph");
    push_path(&mut out, p1);
    let p0 = join(entity, "vectors");
    push_path(&mut out, p0);
    let p0 = join(entity, "vectors");
    let p1 = join(p0.as_str(), "models");
    push_path(&mut out, p1);
    let p0 = join(entity, "vectors");
    let p1 = join(p0.as_str(), "pages");
    push_path(&mut out, p1);
    let p0 = join(entity, "vectors");
    let p1 = join(p0.as_str(), "sparse");
    push_path(&mut out, p1);
    let p0 = join(entity, "vectors");
    let p1 = join(p0.as_str(), "quantized");
    push_path(&mut out, p1);
    let p0 = join(entity, "fulltext");
    push_path(&mut out, p0);
    let p0 = join(entity, "fulltext");
    let p1 = join(p0.as_str(), "pages");
    push_path(&mut out, p1);
    let p0 = join(entity, "fulltext");
    let p1 = join(p0.as_str(), "postings");
    push_path(&mut out, p1);
    let p0 = join(entity, "graph");
    push_path(&mut out, p0);
    let p0 = join(entity, "graph");
    let p1 = join(p0.as_str(), "nodes");
    push_path(&mut out, p1);
    out
}

/// The directories an entity holds: part 3 of 4.
pub open spec fn entity_dirs_2(entity: Seq<char>) -> Seq<Seq<char>> {
    seq![
        join_path(join_path(entity, "graph"@), "relationships"@),
        join_path(join_path(entity, "graph"@), "adjacency"@),
        join_path(join_path(entity, "graph"@), "traversal"@),
        join_path(join_path(entity, "graph"@), "subgraphs"@),
        join_path(join_path(entity, "graph"@), "paths"@),
        join_path(entity, "history"@),
        join_path(join_path(entity, "history"@), "commits"@),
        join_path(join_path(entity, "history"@), "snapshots"@),
        join_path(join_path(entity, "history"@), "branches"@),
        join_path(join_path(entity, "history"@), "deltas"@),
        join_path(join_path(entity, "history"@), "timelines"@),
        join_path(join_path(entity, "history"@), "gc"@),
        join_path(entity, "compaction"@),
        join_path(entity, "cache"@),
        join_path(join_path(entity, "cache"@), "hot"@),
        join_path(join_path(entity, "cache"@), "warm"@),
    ]
}

/// The directories an entity holds: part 3 of 4.
fn entity_dirs_2_of(entity: &str) -> (out: Vec<String>)
    ensures
        strs(out@) == entity_dirs_2(entity@),
{
    let mut out: Vec<String> = Vec::new();
    let p0 = join(entity, "graph");
    let p1 = join(p0.as_str(), "relationships");
    push_path(&mut out, p1);
    let p0 = join(entity, "graph");
    let p1 = join(p0.as_str(), "adjacency");
    push_path(&mut out, p1);
    let p0 = join(entity, "graph");
    let p1 = join(p0.as_str(), "traversal");
    push_path(&mut out, p1);
    let p0 = join(entity, "graph");
    let p1 = join(p0.as_str(), "subgraphs");
    push_path(&mut out, p1);
    let p0 = join(entity, "graph");
    let p1 = join(p0.as_str(), "paths");
    push_path(&mut out, p1);
    let p0 = join(entity, "history");
    push_path(&mut out, p0);
    let p0 = join(entity, "history");
    let p1 = join(p0.as_str(), "commits");
    push_path(&mut out, p1);
    let p0 = join(entity, "history");
    let p1 = join(p0.as_str(), "snapshots");
    push_path(&mut out, p1);
    let p0 = join(entity, "history");
    let p1 = join(p0.as_str(), "branches");
    push_path(&mut out, p1);
    let p0 = join(entity, "history");
    let p1 = join(p0.as_str(), "deltas");
    push_path(&mut out, p1);
    let p0 = join(entity, "history");
    let p1 = join(p0.as_str(), "timelines");
    push_path(&mut out, p1);
    let p0 = join(entity, "history");
    let p1 = join(p0.as_str(), "gc");
    push_path(&mut out, p1);
    let p0 = join(entity, "compaction");
    push_path(&mut out, p0);
    let p0 = join(entity, "cache");
    push_path(&mut out, p0);
    let p0 = join(entity, "cache");
    let p1 = join(p0.as_str(), "hot");
    push_path(&mut out, p1);
    let p0 = join(entity, "cache");
    let p1 = join(p0.as_str(), "warm");
    push_path(&mut out, p1);
    out
}

/// The directories an entity holds: part 4 of 4.
pub open spec fn entity_dirs_3(entity: Seq<char>) -> Seq<Seq<char>> {
    seq![
        join_path(join_path(entity, "cache"@), "cold"@),
        join_path(join_path(entity, "cache"@), "bloom"@),
        join_path(join_path(entity, "cache"@), "query"@),
        join_path(join_path(entity, "cache"@), "vectors"@),
        join_path(entity, "analytics"@),
        join_path(join_path(entity, "analytics"@), "materialized"@),
        join_path(join_path(entity, "analytics"@), "rollups"@),
        join_path(join_path(entity, "analytics"@), "aggregates"@),
        join_path(join_path(entity, "analytics"@), "timeseries"@),
        join_path(join_path(entity, "analytics"@), "summaries"@),
    ]
}

/// The directories an entity holds: part 4 of 4.
fn entity_dirs_3_of(entity: &str) -> (out: Vec<String>)
    ensures
        strs(out@) == entity_dirs_3(entity@),
{
    let mut out: Vec<String> = Vec::new();
    let p0 = join(entity, "cache");
    let p1 = join(p0.as_str(), "cold");
    push_path(&mut out, p1);
    let p0 = join(entity, "cache");
    let p1 = join(p0.as_str(), "bloom");
    push_path(&mut out, p1);
    let p0 = join(entity, "cache");
    let p1 = join(p0.as_str(), "query");
    push_path(&mut out, p1);
    let p0 = join(entity, "cache");
    let p1 = join(p0.as_str(), "vectors");
    push_path(&mut out, p1);
    let p0 = join(entity, "analytics");
    push_path(&mut out, p0);
    let p0 = join(entity, "analytics");
    let p1 = join(p0.as_str(), "materialized");
    push_path(&mut out, p1);
    let p0 = join(entity, "analytics");
    let p1 = join(p0.as_str(), "rollups");
    push_path(&mut out, p1);
    let p0 = join(entity, "analytics");
    let p1 = join(p0.as_str(), "aggregates");
    push_path(&mut out, p1);
    let p0 = join(entity, "analytics");
    let p1 = join(p0.as_str(), "timeseries");
    push_path(&mut out, p1);
    let p0 = join(entity, "analytics");
    let p1 = join(p0.as_str(), "summaries");
    push_path(&mut out, p1);
    out
}

/// The directories an entity holds.
pub open spec fn entity_dirs(entity: Seq<char>) -> Seq<Seq<char>> {
    entity_dirs_0(entity) + entity_dirs_1(entity) + entity_dirs_2(entity) + entity_dirs_3(entity)
}

/// The directories an entity holds.
fn entity_dirs_of(entity: &str) -> (out: Vec<String>)
    ensures
        strs(out@) == entity_dirs(entity@),
{
    let mut v0 = entity_dirs_0_of(entity);
    let mut v1 = entity_dirs_1_of(entity);
    let mut v2 = entity_dirs_2_of(entity);
    let mut v3 = entity_dirs_3_of(entity);
    append_paths(&mut v0, &mut v1);
    append_paths(&mut v0, &mut v2);
    append_paths(&mut v0, &mut v3);
    v0
}

/// The empty files an entity holds: part 1 of 4.
pub open spec fn entity_files_0(entity: Seq<char>) -> Seq<Seq<char>> {
    seq![
        join_path(entity, "entity.meta"@),
        join_path(entity, "entity.stats"@),
        join_path(entity, "layout.bin"@),
        join_path(entity, "rid.map"@),
        join_path(entity, "page.map"@),
        join_path(entity, "slot.map"@),
        join_path(join_path(entity, "schema"@), "schema.meta"@),
        join_path(join_path(entity, "schema"@), "schema.version"@),
        join_path(join_path(join_path(entity, "schema"@), "sql"@), "columns.cat"@),
        join_path(join_path(join_path(entity, "schema"@), "sql"@), "constraints.cat"@),
        join_path(join_path(join_path(entity, "schema"@), "sql"@), "defaults.cat"@),
        join_path(join_path(join_path(entity, "schema"@), "sql"@), "types.cat"@),
        join_path(join_path(join_path(entity, "schema"@), "sql"@), "nullable.bitmap"@),
        join_path(join_path(join_path(entity, "schema"@), "sql"@), "layout.idx"@),
        join_path(join_path(join_path(entity, "schema"@), "nosql"@), "fields.cat"@),
        join_path(join_path(join_path(entity, "schema"@), "nosql"@), "dynamic_keys.cat"@),
    ]
}

/// The empty files an entity holds: part 1 of 4.
fn entity_files_0_of(entity: &str) -> (out: Vec<String>)
    ensures
        strs(out@) == entity_files_0(entity@),
{
    let mut out: Vec<String> = Vec::new();
    let p0 = join(entity, "entity.meta");
    push_path(&mut out, p0);
    let p0 = join(entity, "entity.stats");
    push_path(&mut out, p0);
    let p0 = join(entity, "layout.bin");
    push_path(&mut out, p0);
    let p0 = join(entity, "rid.map");
    push_path(&mut out, p0);
    let p0 = join(entity, "page.map");
    push_path(&mut out, p0);
    let p0 = join(entity, "slot.map");
    push_path(&mut out, p0);
    let p0 = join(entity, "schema");
    let p1 = join(p0.as_str(), "schema.meta");
    push_path(&mut out, p1);
    let p0 = join(entity, "schema");
    let p1 = join(p0.as_str(), "schema.version");
    push_path(&mut out, p1);
    let p0 = join(entity, "schema");
    let p1 = join(p0.as_str(), "sql");
    let p2 = join(p1.as_str(), "columns.cat");
    push_path(&mut out, p2);
    let p0 = join(entity, "schema");
    let p1 = join(p0.as_str(), "sql");
    let p2 = join(p1.as_str(), "constraints.cat");
    push_path(&mut out, p2);
    let p0 = join(entity, "schema");
    let p1 = join(p0.as_str(), "sql");
    let p2 = join(p1.as_str(), "defaults.cat");
    push_path(&mut out, p2);
    let p0 = join(entity, "schema");
    let p1 = join(p0.as_str(), "sql");
    let p2 = join(p1.as_str(), "types.cat");
    push_path(&mut out, p2);
    let p0 = join(entity, "schema");
    let p1 = join(p0.as_str(), "sql");
    let p2 = join(p1.as_str(), "nullable.bitmap");
    push_path(&mut out, p2);
    let p0 = join(entity, "schema");
    let p1 = join(p0.as_str(), "sql");
    let p2 = join(p1.as_str(), "layout.idx");
    push_path(&mut out, p2);
    let p0 = join(entity, "schema");
    let p1 = join(p0.as_str(), "nosql");
    let p2 = join(p1.as_str(), "fields.cat");
    push_path(&mut out, p2);
    let p0 = join(entity, "schema");
    let p1 = join(p0.as_str(), "nosql");
    let p2 = join(p1.as_str(), "dynamic_keys.cat");
    push_path(&mut out, p2);
    out
}

/// The empty files an entity holds: part 2 of 4.
pub open spec fn entity_files_1(entity: Seq<char>) -> Seq<Seq<char>> {
    seq![
        join_path(join_path(join_path(entity, "schema"@), "nosql"@), "codecs.cat"@),
        join_path(join_path(join_path(entity, "schema"@), "nosql"@), "inferred_types.cat"@),
        join_path(join_path(join_path(entity, "schema"@), "nosql"@), "validators.cat"@),
        join_path(join_path(entity, "pages"@), "page.catalog"@),
        join_path(join_path(entity, "pages"@), "free.pages"@),
        join_path(join_path(entity, "pages"@), "dirty.pages"@),
        join_path(join_path(entity, "pages"@), "hot.pages"@),
        join_path(join_path(join_path(entity, "indexes"@), "primary"@), "primary.idx"@),
        join_path(join_path(join_path(entity, "indexes"@), "primary"@), "primary.btree"@),
        join_path(join_path(join_path(entity, "indexes"@), "primary"@), "primary.hash"@),
        join_path(join_path(join_path(entity, "indexes"@), "text"@), "lexicon.idx"@),
        join_path(join_path(join_path(entity, "indexes"@), "text"@), "gin.idx"@),
        join_path(join_path(join_path(entity, "indexes"@), "text"@), "bm25.idx"@),
        join_path(join_path(join_path(entity, "indexes"@), "text"@), "tokenizer.meta"@),
        join_path(join_path(join_path(entity, "indexes"@), "vector"@), "hnsw.idx"@),
        join_path(join_path(join_path(entity, "indexes"@), "vector"@), "ivf.idx"@),
    ]
}

/// The empty files an entity holds: part 2 of 4.
fn entity_files_1_of(entity: &str) -> (out: Vec<String>)
    ensures
        strs(out@) == entity_files_1(entity@),
{
    let mut out: Vec<String> = Vec::new();
    let p0 = join(entity, "schema");
    let p1 = join(p0.as_str(), "nosql");
    let p2 = join(p1.as_str(), "codecs.cat");
    push_path(&mut out, p2);
    let p0 = join(entity, "schema");
    let p1 = join(p0.as_str(), "nosql");
    let p2 = join(p1.as_str(), "inferred_types.cat");
    push_path(&mut out, p2);
    let p0 = join(entity, "schema");
    let p1 = join(p0.as_str(), "nosql");
    let p2 = join(p1.as_str(), "validators.cat");
    push_path(&mut out, p2);
    let p0 = join(entity, "pages");
    let p1 = join(p0.as_str(), "page.catalog");
    push_path(&mut out, p1);
    let p0 = join(entity, "pages");
    let p1 = join(p0.as_str(), "free.pages");
    push_path(&mut out, p1);
    let p0 = join(entity, "pages");
    let p1 = join(p0.as_str(), "dirty.pages");
    push_path(&mut out, p1);
    let p0 = join(entity, "pages");
    let p1 = join(p0.as_str(), "hot.pages");
    push_path(&mut out, p1);
    let p0 = join(entity, "indexes");
    let p1 = join(p0.as_str(), "primary");
    let p2 = join(p1.as_str(), "primary.idx");
    push_path(&mut out, p2);
    let p0 = join(entity, "indexes");
    let p1 = join(p0.as_str(), "primary");
    let p2 = join(p1.as_str(), "primary.btree");
    push_path(&mut out, p2);
    let p0 = join(entity, "indexes");
    let p1 = join(p0.as_str(), "primary");
    let p2 = join(p1.as_str(), "primary.hash");
    push_path(&mut out, p2);
    let p0 = join(entity, "indexes");
    let p1 = join(p0.as_str(), "text");
    let p2 = join(p1.as_str(), "lexicon.idx");
    push_path(&mut out, p2);
    let p0 = join(entity, "indexes");
    let p1 = join(p0.as_str(), "text");
    let p2 = join(p1.as_str(), "gin.idx");
    push_path(&mut out, p2);
    let p0 = join(entity, "indexes");
    let p1 = join(p0.as_str(), "text");
    let p2 = join(p1.as_str(), "bm25.idx");
    push_path(&mut out, p2);
    let p0 = join(entity, "indexes");
    let p1 = join(p0.as_str(), "text");
    let p2 = join(p1.as_str(), "tokenizer.meta");
    push_path(&mut out, p2);
    let p0 = join(entity, "indexes");
    let p1 = join(p0.as_str(), "vector");
    let p2 = join(p1.as_str(), "hnsw.idx");
    push_path(&mut out, p2);
    let p0 = join(entity, "indexes");
    let p1 = join(p0.as_str(), "vector");
    let p2 = join(p1.as_str(), "ivf.idx");
    push_path(&mut out, p2);
    out
}

/// The empty files an entity holds: part 3 of 4.
pub open spec fn entity_files_2(entity: Seq<char>) -> Seq<Seq<char>> {
    seq![
        join_path(join_path(join_path(entity, "indexes"@), "vector"@), "pq.codebook"@),
        join_path(join_path(join_path(entity, "indexes"@), "vector"@), "quant.meta"@),
        join_path(join_path(join_path(entity, "indexes"@), "graph"@), "edge_out.idx"@),
        join_path(join_path(join_path(entity, "indexes"@), "graph"@), "edge_in.idx"@),
        join_path(join_path(join_path(entity, "indexes"@), "graph"@), "degree.idx"@),
        join_path(join_path(join_path(entity, "indexes"@), "graph"@), "traversal.idx"@),
        join_path(join_path(join_path(entity, "indexes"@), "graph"@), "path.idx"@),
        join_path(join_path(entity, "vectors"@), "vector.meta"@),
        join_path(join_path(entity, "fulltext"@), "fts.meta"@),
        join_path(join_path(entity, "fulltext"@), "tokenizer.meta"@),
        join_path(join_path(entity, "fulltext"@), "stopwords.txt"@),
        join_path(join_path(entity, "compaction"@), "compact.plan"@),
        join_path(join_path(entity, "compaction"@), "relocation.log"@),
        join_path(join_path(entity, "compaction"@), "forwarding.idx"@),
        join_path(join_path(entity, "compaction"@), "tombstones.idx"@),
        join_path(join_path(entity, "compaction"@), "vacuum.queue"@),
    ]
}

/// The empty files an entity holds: part 3 of 4.
fn entity_files_2_of(entity: &str) -> (out: Vec<String>)
    ensures
        strs(out@) == entity_files_2(entity@),
{
    let mut out: Vec<String> = Vec::new();
    let p0 = join(entity, "indexes");
    let p1 = join(p0.as_str(), "vector");
    let p2 = join(p1.as_str(), "pq.codebook");
    push_path(&mut out, p2);
    let p0 = join(entity, "indexes");
    let p1 = join(p0.as_str(), "vector");
    let p2 = join(p1.as_str(), "quant.meta");
    push_path(&mut out, p2);
    let p0 = join(entity, "indexes");
    let p1 = join(p0.as_str(), "graph");
    let p2 = join(p1.as_str(), "edge_out.idx");
    push_path(&mut out, p2);
    let p0 = join(entity, "indexes");
    let p1 = join(p0.as_str(), "graph");
    let p2 = join(p1.as_str(), "edge_in.idx");
    push_path(&mut out, p2);
    let p0 = join(entity, "indexes");
    let p1 = join(p0.as_str(), "graph");
    let p2 = join(p1.as_str(), "degree.idx");
    push_path(&mut out, p2);
    let p0 = join(entity, "indexes");
    let p1 = join(p0.as_str(), "graph");
    let p2 = join(p1.as_str(), "traversal.idx");
    push_path(&mut out, p2);
    let p0 = join(entity, "indexes");
    let p1 = join(p0.as_str(), "graph");
    let p2 = join(p1.as_str(), "path.idx");
    push_path(&mut out, p2);
    let p0 = join(entity, "vectors");
    let p1 = join(p0.as_str(), "vector.meta");
    push_path(&mut out, p1);
    let p0 = join(entity, "fulltext");
    let p1 = join(p0.as_str(), "fts.meta");
    push_path(&mut out, p1);
    let p0 = join(entity, "fulltext");
    let p1 = join(p0.as_str(), "tokenizer.meta");
    push_path(&mut out, p1);
    let p0 = join(entity, "fulltext");
    let p1 = join(p0.as_str(), "stopwords.txt");
    push_path(&mut out, p1);
    let p0 = join(entity, "compaction");
    let p1 = join(p0.as_str(), "compact.plan");
    push_path(&mut out, p1);
    let p0 = join(entity, "compaction");
    let p1 = join(p0.as_str(), "relocation.log");
    push_path(&mut out, p1);
    let p0 = join(entity, "compaction");
    let p1 = join(p0.as_str(), "forwarding.idx");
    push_path(&mut out, p1);
    let p0 = join(entity, "compaction");
    let p1 = join(p0.as_str(), "tombstones.idx");
    push_path(&mut out, p1);
    let p0 = join(entity, "compaction");
    let p1 = join(p0.as_str(), "vacuum.queue");
    push_path(&mut out, p1);
    out
}

/// The empty files an entity holds: part 4 of 4.
pub open spec fn entity_files_3(entity: Seq<char>) -> Seq<Seq<char>> {
    seq![
        join_path(join_path(entity, "compaction"@), "rewrite.map"@),
    ]
}

/// The empty files an entity holds: part 4 of 4.
fn entity_files_3_of(entity: &str) -> (out: Vec<String>)
    ensures
        strs(out@) == entity_files_3(entity@),
{
    let mut out: Vec<String> = Vec::new();
    let p0 = join(entity, "compaction");
    let p1 = join(p0.as_str(), "rewrite.map");
    push_path(&mut out, p1);
    out
}

/// The empty files an entity holds.
pub open spec fn entity_files(entity: Seq<char>) -> Seq<Seq<char>> {
    entity_files_0(entity) + entity_files_1(entity) + entity_files_2(entity) + entity_files_3(entity)
}

/// The empty files an entity holds.
fn entity_files_of(entity: &str) -> (out: Vec<String>)
    ensures
        strs(out@) == entity_files(entity@),
{
    let mut v0 = entity_files_0_of(entity);
    let mut v1 = entity_files_1_of(entity);
    let mut v2 = entity_files_2_of(entity);
    let mut v3 = entity_files_3_of(entity);
    append_paths(&mut v0, &mut v1);
    append_paths(&mut v0, &mut v2);
    append_paths(&mut v0, &mut v3);
    v0
}

/// The kind of durable artifact a path holds.
#[derive(Clone, Copy, Debug, PartialEq, Eq, Structural)]
pub enum DurableLayoutKind {
    Catalog,
    Config,
    Runtime,
    Logs,
    Collection,
    Entity,
    Page,
    SlotDirectory,
    CriticalMap,
    Index,
    Segment,
}

/// The family of a segment blob.
#[derive(Clone, Copy, Debug, PartialEq, Eq, Structural)]
pub enum SegmentFamily {
    Vector,
    Edge,
    FullText,
}

/// A durable path with its kind, its format version and whether the
/// manifest tracks it.
#[derive(Clone, Debug)]
pub struct LayoutPath {
    pub kind: DurableLayoutKind,
    pub path: String,
    pub version: u32,
    pub manifest_tracked: bool,
}

/// The directories to create and the empty files to make sure of, in
/// order.
#[derive(Clone, Debug)]
pub struct LayoutPlan {
    pub dirs: Vec<String>,
    pub files: Vec<String>,
}

/// The layout's format version.
pub const LAYOUT_FORMAT_VERSION: u32 = 1;

/// The name of the root directory under the base.
pub open spec fn root_dir_name() -> Seq<char> {
    ".praxis"@
}

/// A tracked path of the current format.
pub open spec fn is_layout_path(p: LayoutPath, kind: DurableLayoutKind, path: Seq<char>) -> bool {
    p.kind == kind && p.path@ == path && p.version == LAYOUT_FORMAT_VERSION && p.manifest_tracked
}

/// The engine's on-disk layout under one root.
#[derive(Clone, Debug)]
pub struct PraxisLayout {
    root: String,
}

impl View for PraxisLayout {
    type V = Seq<char>;

    closed spec fn view(&self) -> Seq<char> {
        self.root@
    }
}

/// The directory of collection `cid` under root `r`.
pub open spec fn collection_root_of(r: Seq<char>, cid: Cid) -> Seq<char> {
    join_path(join_path(r, "data"@), hex_padded(cid.0 as nat, 4))
}

/// The directory of entity `eid` of collection `cid` under root `r`.
pub open spec fn entity_root_of(r: Seq<char>, cid: Cid, eid: Eid) -> Seq<char> {
    join_path(join_path(collection_root_of(r, cid), "entities"@), hex_padded(eid.0 as nat, 4))
}

/// The directory of frame `fid` of an entity under root `r`.
pub open spec fn frame_root_of(r: Seq<char>, cid: Cid, eid: Eid, fid: Fid) -> Seq<char> {
    join_path(
        join_path(join_path(entity_root_of(r, cid, eid), "pages"@), "frames"@),
        hex_padded(fid.0 as nat, 4),
    )
}

/// The file name of log `wal_id`: eight decimal digits and `.wal`.
pub open spec fn wal_name(wal_id: u64) -> Seq<char> {
    dec_padded(wal_id as nat, 8) + ".wal"@
}

fn layout_path(kind: DurableLayoutKind, path: String) -> (p: LayoutPath)
    ensures
        is_layout_path(p, kind, path@),
{
    LayoutPath { kind, path, version: LAYOUT_FORMAT_VERSION, manifest_tracked: true }
}

fn wal_file_name(wal_id: u64) -> (s: String)
    ensures
        s@ == wal_name(wal_id),
{
    let mut s = decimal_padded(wal_id, 8);
    s.append(".wal");
    s
}

impl PraxisLayout {
    /// The layout rooted at `.praxis` under `base`.
    pub fn new(base: &str) -> (l: PraxisLayout)
        ensures
            l@ == join_path(base@, root_dir_name()),
    {
        PraxisLayout { root: join(base, ".praxis") }
    }

    /// The root directory.
    pub fn root(&self) -> (r: &str)
        ensures
            r@ == self@,
    {
        self.root.as_str()
    }

    pub fn catalog_root(&self) -> (p: String)
        ensures
            p@ == join_path(self@, "catalog"@),
    {
        join(self.root.as_str(), "catalog")
    }

    pub fn config_root(&self) -> (p: String)
        ensures
            p@ == join_path(self@, "config"@),
    {
        join(self.root.as_str(), "config")
    }

    pub fn runtime_root(&self) -> (p: String)
        ensures
            p@ == join_path(self@, "runtime"@),
    {
        join(self.root.as_str(), "runtime")
    }

    pub fn logs_root(&self) -> (p: String)
        ensures
            p@ == join_path(self@, "logs"@),
    {
        join(self.root.as_str(), "logs")
    }

    pub fn data_root(&self) -> (p: String)
        ensures
            p@ == join_path(self@, "data"@),
    {
        join(self.root.as_str(), "data")
    }

    /// The page-layout manifest, in the catalog.
    pub fn page_manifest_path(&self) -> (p: LayoutPath)
        ensures
            is_layout_path(
                p,
                DurableLayoutKind::Catalog,
                join_path(join_path(self@, "catalog"@), "page-layout.manifest"@),
            ),
    {
        let c = self.catalog_root();
        layout_path(DurableLayoutKind::Catalog, join(c.as_str(), "page-layout.manifest"))
    }

    pub fn collection_root(&self, cid: Cid) -> (p: String)
        ensures
            p@ == collection_root_of(self@, cid),
    {
        let d = self.data_root();
        let h = cid.to_hex();
        join(d.as_str(), h.as_str())
    }

    pub fn collection_meta_root(&self, cid: Cid) -> (p: String)
        ensures
            p@ == join_path(collection_root_of(self@, cid), "meta"@),
    {
        let c = self.collection_root(cid);
        join(c.as_str(), "meta")
    }

    pub fn collection_wal_root(&self, cid: Cid) -> (p: String)
        ensures
            p@ == join_path(collection_root_of(self@, cid), "wal"@),
    {
        let c = self.collection_root(cid);
        join(c.as_str(), "wal")
    }

    /// The active log `wal_id` of a collection.
    pub fn collection_active_wal_path(&self, cid: Cid, wal_id: u64) -> (p: LayoutPath)
        ensures
            is_layout_path(
                p,
                DurableLayoutKind::Logs,
                join_path(
                    join_path(join_path(collection_root_of(self@, cid), "wal"@), "active"@),
                    wal_name(wal_id),
                ),
            ),
    {
        let w = self.collection_wal_root(cid);
        let a = join(w.as_str(), "active");
        let f = wal_file_name(wal_id);
        layout_path(DurableLayoutKind::Logs, join(a.as_str(), f.as_str()))
    }

    /// The archived log `wal_id` of a collection.
    pub fn collection_archived_wal_path(&self, cid: Cid, wal_id: u64) -> (p: LayoutPath)
        ensures
            is_layout_path(
                p,
                DurableLayoutKind::Logs,
                join_path(
                    join_path(join_path(collection_root_of(self@, cid), "wal"@), "archived"@),
                    wal_name(wal_id),
                ),
            ),
    {
        let w = self.collection_wal_root(cid);
        let a = join(w.as_str(), "archived");
        let f = wal_file_name(wal_id);
        layout_path(DurableLayoutKind::Logs, join(a.as_str(), f.as_str()))
    }

    pub fn collection_kv_root(&self, cid: Cid) -> (p: String)
        ensures
            p@ == join_path(collection_root_of(self@, cid), "kv"@),
    {
        let c = self.collection_root(cid);
        join(c.as_str(), "kv")
    }

    pub fn entity_root(&self, cid: Cid, eid: Eid) -> (p: String)
        ensures
            p@ == entity_root_of(self@, cid, eid),
    {
        let c = self.collection_root(cid);
        let e = join(c.as_str(), "entities");
        let h = eid.to_hex();
        join(e.as_str(), h.as_str())
    }

    pub fn entity_meta_path(&self, cid: Cid, eid: Eid) -> (p: LayoutPath)
        ensures
            is_layout_path(p, DurableLayoutKind::Entity, join_path(entity_root_of(self@, cid, eid), "entity.meta"@)),
    {
        let e = self.entity_root(cid, eid);
        layout_path(DurableLayoutKind::Entity, join(e.as_str(), "entity.meta"))
    }

    pub fn entity_layout_path(&self, cid: Cid, eid: Eid) -> (p: LayoutPath)
        ensures
            is_layout_path(p, DurableLayoutKind::Entity, join_path(entity_root_of(self@, cid, eid), "layout.bin"@)),
    {
        let e = self.entity_root(cid, eid);
        layout_path(DurableLayoutKind::Entity, join(e.as_str(), "layout.bin"))
    }

    /// Page `pid` of frame `fid`: `<hex>.page` under the frame's pages.
    pub fn page_path(&self, cid: Cid, eid: Eid, fid: Fid, pid: Pid) -> (p: LayoutPath)
        ensures
            is_layout_path(
                p,
                DurableLayoutKind::Page,
                join_path(
                    join_path(frame_root_of(self@, cid, eid, fid), "pages"@),
                    hex_padded(pid.0 as nat, 4) + ".page"@,
                ),
            ),
    {
        let f = self.frame_root(cid, eid, fid);
        let pages = join(f.as_str(), "pages");
        let mut name = pid.to_hex();
        name.append(".page");
        layout_path(DurableLayoutKind::Page, join(pages.as_str(), name.as_str()))
    }

    pub fn frame_root(&self, cid: Cid, eid: Eid, fid: Fid) -> (p: String)
        ensures
            p@ == frame_root_of(self@, cid, eid, fid),
    {
        let e = self.entity_root(cid, eid);
        let a = join(e.as_str(), "pages");
        let b = join(a.as_str(), "frames");
        let h = fid.to_hex();
        join(b.as_str(), h.as_str())
    }

    pub fn slot_directory_root(&self, cid: Cid, eid: Eid, fid: Fid, pid: Pid) -> (p: String)
        ensures
            p@ == join_path(
                join_path(join_path(entity_root_of(self@, cid, eid), "slots"@), hex_padded(fid.0 as nat, 4)),
                hex_padded(pid.0 as nat, 4),
            ),
    {
        let e = self.entity_root(cid, eid);
        let a = join(e.as_str(), "slots");
        let f = fid.to_hex();
        let b = join(a.as_str(), f.as_str());
        let h = pid.to_hex();
        join(b.as_str(), h.as_str())
    }

    pub fn slot_directory_path(&self, cid: Cid, eid: Eid, fid: Fid, pid: Pid) -> (p: LayoutPath)
        ensures
            is_layout_path(
                p,
                DurableLayoutKind::SlotDirectory,
                join_path(
                    join_path(
                        join_path(join_path(entity_root_of(self@, cid, eid), "slots"@), hex_padded(fid.0 as nat, 4)),
                        hex_padded(pid.0 as nat, 4),
                    ),
                    "slot.directory"@,
                ),
            ),
    {
        let d = self.slot_directory_root(cid, eid, fid, pid);
        layout_path(DurableLayoutKind::SlotDirectory, join(d.as_str(), "slot.directory"))
    }

    /// The critical map `name` of a collection: `<name>.kv`.
    pub fn critical_map_path(&self, cid: Cid, name: &str) -> (p: LayoutPath)
        ensures
            is_layout_path(
                p,
                DurableLayoutKind::CriticalMap,
                join_path(
                    join_path(join_path(collection_root_of(self@, cid), "kv"@), "critical"@),
                    name@ + ".kv"@,
                ),
            ),
    {
        let c = self.collection_root(cid);
        let a = join(c.as_str(), "kv");
        let b = join(a.as_str(), "critical");
        let mut f = String::from_str(name);
        f.append(".kv");
        layout_path(DurableLayoutKind::CriticalMap, join(b.as_str(), f.as_str()))
    }

    /// The first overflow blob of an entity.
    pub fn overflow_blob_path(&self, cid: Cid, eid: Eid) -> (p: LayoutPath)
        ensures
            is_layout_path(
                p,
                DurableLayoutKind::Segment,
                join_path(
                    join_path(
                        join_path(join_path(join_path(entity_root_of(self@, cid, eid), "overflow"@), "0001"@), "0001"@),
                        "values"@,
                    ),
                    "000001.ovf"@,
                ),
            ),
    {
        let e = self.entity_root(cid, eid);
        let a = join(e.as_str(), "overflow");
        let b = join(a.as_str(), "0001");
        let c = join(b.as_str(), "0001");
        let d = join(c.as_str(), "values");
        layout_path(DurableLayoutKind::Segment, join(d.as_str(), "000001.ovf"))
    }

    /// The first segment blob of a family under an entity.
    pub fn segment_blob_path(&self, cid: Cid, eid: Eid, family: SegmentFamily) -> (p: LayoutPath)
        ensures
            is_layout_path(
                p,
                DurableLayoutKind::Segment,
                join_path(
                    join_path(entity_root_of(self@, cid, eid), segment_dir(family)),
                    segment_file(family),
                ),
            ),
    {
        let (dir, file) = match family {
            SegmentFamily::Vector => ("vectors", "vector-0001.seg"),
            SegmentFamily::Edge => ("graph", "edge-0001.seg"),
            SegmentFamily::FullText => ("fulltext", "fulltext-0001.seg"),
        };
        let e = self.entity_root(cid, eid);
        let a = join(e.as_str(), dir);
        layout_path(DurableLayoutKind::Segment, join(a.as_str(), file))
    }

    /// What `create_all` makes: the root's directories, then its empty
    /// files.
    pub fn create_all_plan(&self) -> (p: LayoutPlan)
        ensures
            strs(p.dirs@) == root_dirs(self@),
            strs(p.files@) == root_files(self@),
    {
        LayoutPlan { dirs: root_dirs_of(self.root.as_str()), files: root_files_of(self.root.as_str()) }
    }

    /// What `ensure_frame_tree` makes under the frame's directory.
    pub fn frame_tree_plan(&self, cid: Cid, eid: Eid, fid: Fid) -> (p: LayoutPlan)
        ensures
            strs(p.dirs@) == frame_dirs(frame_root_of(self@, cid, eid, fid)),
            strs(p.files@) == frame_files(frame_root_of(self@, cid, eid, fid)),
    {
        let f = self.frame_root(cid, eid, fid);
        LayoutPlan { dirs: frame_dirs_of(f.as_str()), files: frame_files_of(f.as_str()) }
    }

    /// What `ensure_collection_tree` makes under the collection's directory.
    pub fn collection_tree_plan(&self, cid: Cid) -> (p: LayoutPlan)
        ensures
            strs(p.dirs@) == collection_dirs(collection_root_of(self@, cid)),
            strs(p.files@) == collection_files(collection_root_of(self@, cid)),
    {
        let c = self.collection_root(cid);
        LayoutPlan { dirs: collection_dirs_of(c.as_str()), files: collection_files_of(c.as_str()) }
    }

    /// What `ensure_entity_tree` makes under the entity's directory, after
    /// its collection's tree.
    pub fn entity_tree_plan(&self, cid: Cid, eid: Eid) -> (p: LayoutPlan)
        ensures
            strs(p.dirs@) == entity_dirs(entity_root_of(self@, cid, eid)),
            strs(p.files@) == entity_files(entity_root_of(self@, cid, eid)),
    {
        let e = self.entity_root(cid, eid);
        LayoutPlan { dirs: entity_dirs_of(e.as_str()), files: entity_files_of(e.as_str()) }
    }
}

/// The directory of a segment family's blobs.
pub open spec fn segment_dir(f: SegmentFamily) -> Seq<char> {
    match f {
        SegmentFamily::Vector => "vectors"@,
        SegmentFamily::Edge => "graph"@,
        SegmentFamily::FullText => "fulltext"@,
    }
}

/// The file name of a segment family's first blob.
pub open spec fn segment_file(f: SegmentFamily) -> Seq<char> {
    match f {
        SegmentFamily::Vector => "vector-0001.seg"@,
        SegmentFamily::Edge => "edge-0001.seg"@,
        SegmentFamily::FullText => "fulltext-0001.seg"@,
    }
}

} // verus!
