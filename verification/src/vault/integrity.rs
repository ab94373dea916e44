//! Checking a vault and repairing it.

use crate::catalog::{ChunkRef, FileMap};
use crate::error::VaultError;
use crate::order::SortKey;
use crate::pipeline::{content_hash, decode_block};
use crate::sorted::{Duplicate, SortedSet};
use crate::vault::{Vault, VaultView};
use vstd::prelude::*;

verus! {

/// How many problems a report describes in words.
pub const MAX_ERRORS: usize = 100;

/// What a check found.
#[derive(Debug)]
pub struct VerifyReport {
    /// Blocks that could be read and have the right content.
    pub blocks_ok: usize,
    /// Blocks that could not be read or decoded, or have another content.
    pub blocks_bad: usize,
    /// Chunks whose block is not in the index.
    pub missing_blocks: usize,
    /// The problems in words, as many as [`MAX_ERRORS`].
    pub errors: Vec<String>,
}

/// A report as a value.
#[verifier::ext_equal]
pub struct ReportView {
    pub blocks_ok: usize,
    pub blocks_bad: usize,
    pub missing_blocks: usize,
    pub errors: Seq<Seq<char>>,
}

impl View for VerifyReport {
    type V = ReportView;

    open spec fn view(&self) -> ReportView {
        ReportView {
            blocks_ok: self.blocks_ok,
            blocks_bad: self.blocks_bad,
            missing_blocks: self.missing_blocks,
            errors: crate::vault::moves::names(self.errors@),
        }
    }
}

/// A report on nothing.
pub open spec fn empty_report() -> ReportView {
    ReportView { blocks_ok: 0, blocks_bad: 0, missing_blocks: 0, errors: Seq::empty() }
}

impl Default for VerifyReport {
    fn default() -> (r: Self)
        ensures
            r@ == empty_report(),
    {
        let r = VerifyReport {
            blocks_ok: 0,
            blocks_bad: 0,
            missing_blocks: 0,
            errors: Vec::new(),
        };
        assert(r@ =~= empty_report());
        r
    }
}

/// What was found of a block.
#[derive(Clone, Copy, Debug, PartialEq, Eq, Structural)]
pub enum Verdict {
    Good,
    /// It could not be read.
    Unreadable,
    /// Its content has another address.
    Mismatch,
    /// It could not be decoded.
    Undecodable,
}

/// The verdict on a block by the bytes that were read for it; `None` if reading failed.
pub open spec fn verdict_of(
    key: Option<Seq<u8>>,
    hash: Seq<u8>,
    stored: Option<Seq<u8>>,
) -> Verdict {
    match stored {
        None => Verdict::Unreadable,
        Some(s) => match crate::pipeline::block_content(s, key) {
            None => Verdict::Undecodable,
            Some(data) => if crate::pipeline::blake3_digest(data) == hash {
                Verdict::Good
            } else {
                Verdict::Mismatch
            },
        },
    }
}

/// The words for a verdict.
pub open spec fn verdict_text(r: Verdict) -> Seq<char> {
    match r {
        Verdict::Good => Seq::empty(),
        Verdict::Unreadable => "bloco ilegível (leitura falhou)"@,
        Verdict::Mismatch => "bloco com conteúdo corrompido (hash não bate)"@,
        Verdict::Undecodable => "bloco não decodifica (corrompido ou senha errada)"@,
    }
}

/// The words for a chunk of the file `path` whose block is missing.
pub open spec fn missing_text(path: Seq<char>) -> Seq<char> {
    path + ": referência a bloco ausente"@
}

/// `errors` with one more, if there is room.
pub open spec fn noted(errors: Seq<Seq<char>>, text: Seq<char>) -> Seq<Seq<char>> {
    if errors.len() < 100 {
        errors.push(text)
    } else {
        errors
    }
}

/// `errors` with more of them, as long as there is room.
pub open spec fn all_noted(errors: Seq<Seq<char>>, texts: Seq<Seq<char>>) -> Seq<Seq<char>>
    decreases texts.len(),
{
    if texts.len() == 0 {
        errors
    } else {
        noted(all_noted(errors, texts.drop_last()), texts.last())
    }
}

/// The report with one more verdict.
pub open spec fn with_verdict(r: ReportView, verdict: Verdict) -> ReportView {
    if verdict == Verdict::Good {
        ReportView { blocks_ok: (r.blocks_ok + 1) as usize, ..r }
    } else {
        ReportView {
            blocks_bad: (r.blocks_bad + 1) as usize,
            errors: noted(r.errors, verdict_text(verdict)),
            ..r
        }
    }
}

/// The words for those of the first `n` chunks of a file whose block is missing.
pub open spec fn file_notes(
    blocks: Map<Seq<u8>, crate::catalog::BlockRef>,
    path: Seq<char>,
    chunks: Seq<ChunkRef>,
    n: int,
) -> Seq<Seq<char>>
    decreases n,
{
    if n <= 0 {
        Seq::empty()
    } else {
        let front = file_notes(blocks, path, chunks, n - 1);
        if blocks.contains_key(chunks[n - 1].hash@) {
            front
        } else {
            front.push(missing_text(path))
        }
    }
}

/// The words for the missing blocks of the first `n` files of a tree.
pub open spec fn tree_notes(
    blocks: Map<Seq<u8>, crate::catalog::BlockRef>,
    files: Map<Seq<char>, crate::catalog::FileView>,
    order: Seq<Seq<char>>,
    n: int,
) -> Seq<Seq<char>>
    decreases n,
{
    if n <= 0 {
        Seq::empty()
    } else {
        let chunks = files[order[n - 1]].chunks;
        tree_notes(blocks, files, order, n - 1) + file_notes(
            blocks,
            order[n - 1],
            chunks,
            chunks.len() as int,
        )
    }
}

/// The words for the missing blocks of a tree.
pub open spec fn all_tree_notes(
    blocks: Map<Seq<u8>, crate::catalog::BlockRef>,
    files: Map<Seq<char>, crate::catalog::FileView>,
) -> Seq<Seq<char>> {
    let order = crate::vault::tree::path_order(files.dom());
    tree_notes(blocks, files, order, order.len() as int)
}

/// The words for the missing blocks of the first `n` snapshots.
pub open spec fn snapshot_notes(v: VaultView, n: int) -> Seq<Seq<char>>
    decreases n,
{
    if n <= 0 {
        Seq::empty()
    } else {
        snapshot_notes(v, n - 1) + all_tree_notes(
            v.catalog.blocks,
            v.catalog.snapshots[n - 1].files,
        )
    }
}

/// The words for all missing blocks: those of the tree and then those of the snapshots.
pub open spec fn missing_notes(v: VaultView) -> Seq<Seq<char>> {
    all_tree_notes(v.catalog.blocks, v.catalog.files) + snapshot_notes(
        v,
        v.catalog.snapshots.len() as int,
    )
}

/// A count that stops at the largest number.
pub open spec fn counted(n: usize, more: nat) -> usize {
    if n + more <= usize::MAX {
        (n + more) as usize
    } else {
        usize::MAX
    }
}

/// The report with the missing blocks that the texts speak of.
pub open spec fn with_missing(r: ReportView, texts: Seq<Seq<char>>) -> ReportView {
    ReportView {
        missing_blocks: counted(r.missing_blocks, texts.len()),
        errors: all_noted(r.errors, texts),
        ..r
    }
}

/// The report with the first `n` verdicts.
pub open spec fn with_verdicts(r: ReportView, verdicts: Seq<Verdict>, n: int) -> ReportView
    decreases n,
{
    if n <= 0 {
        r
    } else {
        with_verdict(with_verdicts(r, verdicts, n - 1), verdicts[n - 1])
    }
}

impl VerifyReport {
    /// Nothing wrong was found.
    pub fn is_healthy(&self) -> (r: bool)
        ensures
            r == (self@.blocks_bad == 0 && self@.missing_blocks == 0),
    {
        self.blocks_bad == 0 && self.missing_blocks == 0
    }

    /// Describes a problem, if there is room.
    fn note(&mut self, text: String)
        ensures
            final(self)@ == (ReportView {
                errors: noted(old(self)@.errors, text@),
                ..old(self)@
            }),
    {
        let ghost before = self@;
        let ghost t = text@;
        if self.errors.len() < MAX_ERRORS {
            self.errors.push(text);
            assert(self@.errors =~= before.errors.push(t));
        }
        assert(self@ =~= (ReportView { errors: noted(before.errors, t), ..before }));
    }

    /// Counts a verdict.
    pub fn record(&mut self, verdict: Verdict)
        requires
            verdict == Verdict::Good ==> old(self)@.blocks_ok < usize::MAX,
            verdict != Verdict::Good ==> old(self)@.blocks_bad < usize::MAX,
        ensures
            final(self)@ == with_verdict(old(self)@, verdict),
    {
        match verdict {
            Verdict::Good => {
                self.blocks_ok = self.blocks_ok + 1;
            },
            Verdict::Unreadable => {
                self.blocks_bad = self.blocks_bad + 1;
                self.note("bloco ilegível (leitura falhou)".to_owned());
            },
            Verdict::Mismatch => {
                self.blocks_bad = self.blocks_bad + 1;
                self.note("bloco com conteúdo corrompido (hash não bate)".to_owned());
            },
            Verdict::Undecodable => {
                self.blocks_bad = self.blocks_bad + 1;
                self.note("bloco não decodifica (corrompido ou senha errada)".to_owned());
            },
        }
    }
}

/// Judges a block by what it decoded to.
pub fn judge(hash: &crate::pipeline::Hash, decoded: &Result<Vec<u8>, VaultError>) -> (r: Verdict)
    ensures
        r == (match *decoded {
            Err(_) => Verdict::Undecodable,
            Ok(data) => if crate::pipeline::blake3_digest(data@) == hash@ {
                Verdict::Good
            } else {
                Verdict::Mismatch
            },
        }),
{
    match decoded {
        Err(_) => Verdict::Undecodable,
        Ok(data) => if content_hash(data.as_slice()).is_same(hash) {
            Verdict::Good
        } else {
            Verdict::Mismatch
        },
    }
}

/// The view of what was read.
pub open spec fn read_view(stored: Option<&[u8]>) -> Option<Seq<u8>> {
    match stored {
        Some(s) => Some(s@),
        None => None,
    }
}

/// The view of what was read.
pub open spec fn kept_view(stored: Option<Vec<u8>>) -> Option<Seq<u8>> {
    match stored {
        Some(s) => Some(s@),
        None => None,
    }
}

/// The addresses of the blocks in order.
pub open spec fn block_order(v: VaultView) -> Seq<Seq<u8>> {
    crate::sorted::in_order::<crate::pipeline::Hash>(v.catalog.blocks.dom())
}

/// The views of the addresses.
pub open spec fn hash_views(hashes: Seq<crate::pipeline::Hash>) -> Seq<Seq<u8>> {
    Seq::new(hashes.len(), |i: int| hashes[i]@)
}

/// What the check of a whole vault reports on these verdicts.
pub open spec fn full_report(v: VaultView, verdicts: Seq<Verdict>) -> ReportView {
    with_missing(
        with_verdicts(empty_report(), verdicts, verdicts.len() as int),
        missing_notes(v),
    )
}

/// The views of what was read.
pub open spec fn kept_views(reads: Seq<Option<Vec<u8>>>) -> Seq<Option<Seq<u8>>> {
    Seq::new(reads.len(), |i: int| kept_view(reads[i]))
}

/// The verdicts on all blocks, in order, by what was read for them.
pub open spec fn verdicts_of(v: VaultView, reads: Seq<Option<Seq<u8>>>) -> Seq<Verdict> {
    Seq::new(reads.len(), |i: int| verdict_of(v.key(), block_order(v)[i], reads[i]))
}

/// What is read from a file for a block; `None` if the file is too short.
pub open spec fn read_at(file: Seq<u8>, b: crate::catalog::BlockRef) -> Option<Seq<u8>> {
    if b.offset + b.len <= file.len() {
        Some(file.subrange(b.offset as int, b.offset + b.len))
    } else {
        None
    }
}

/// What is read from a file for all blocks, in order.
pub open spec fn reads_of(v: VaultView, file: Seq<u8>) -> Seq<Option<Seq<u8>>> {
    let order = block_order(v);
    Seq::new(order.len(), |i: int| read_at(file, v.catalog.blocks[order[i]]))
}

/// The blocks that are not good by what was read for them.
pub open spec fn invalid_blocks(v: VaultView, reads: Seq<Option<Seq<u8>>>) -> Set<Seq<u8>> {
    Set::new(
        |h: Seq<u8>|
            exists|i: int|
                0 <= i < reads.len() && #[trigger] block_order(v)[i] == h && verdict_of(
                    v.key(),
                    h,
                    reads[i],
                ) != Verdict::Good,
    )
}

impl Vault {
    /// The addresses of all blocks, in the order in which they are checked.
    pub fn block_hashes(&self) -> (r: Vec<crate::pipeline::Hash>)
        requires
            self.wf(),
        ensures
            hash_views(r@) == block_order(self@),
            forall|i: int|
                0 <= i < r@.len() ==> self@.catalog.blocks.contains_key((#[trigger] r@[i])@),
    {
        proof {
            self.catalog.blocks.lemma_rows();
        }
        let ghost keys = self.catalog.blocks.key_seq();
        let mut r: Vec<crate::pipeline::Hash> = Vec::new();
        let mut i: usize = 0;
        while i < self.catalog.blocks.len()
            invariant
                self.wf(),
                keys == self.catalog.blocks.key_seq(),
                i <= keys.len(),
                r@.len() == i,
                forall|j: int| 0 <= j < i ==> (#[trigger] r@[j])@ == keys[j],
            decreases keys.len() - i,
        {
            r.push(self.catalog.blocks.key_at(i).duplicate());
            i = i + 1;
        }
        assert(hash_views(r@) =~= keys);
        r
    }

    /// Where a block stands.
    pub fn block_place(&self, hash: &crate::pipeline::Hash) -> (r: Option<
        crate::catalog::BlockRef,
    >)
        requires
            self.wf(),
        ensures
            r == (if self@.catalog.blocks.contains_key(hash@) {
                Some(self@.catalog.blocks[hash@])
            } else {
                None
            }),
    {
        match self.catalog.blocks.get(hash) {
            Some(b) => Some(*b),
            None => None,
        }
    }

    /// Judges a block by what was read for it; `None` if reading failed.
    pub fn check_block(&self, hash: &crate::pipeline::Hash, stored: Option<&[u8]>) -> (r: Verdict)
        requires
            self.wf(),
        ensures
            r == verdict_of(self@.key(), hash@, read_view(stored)),
    {
        match stored {
            None => Verdict::Unreadable,
            Some(s) => judge(hash, &decode_block(s, self.key())),
        }
    }

    /// Whether a block is in the index and what was read for it has the right content.
    pub fn block_is_valid(&self, hash: &crate::pipeline::Hash, stored: Option<&[u8]>) -> (r: bool)
        requires
            self.wf(),
        ensures
            r == (self@.catalog.blocks.contains_key(hash@) && verdict_of(
                self@.key(),
                hash@,
                read_view(stored),
            ) == Verdict::Good),
    {
        if !self.catalog.blocks.contains_key(hash) {
            return false;
        }
        self.check_block(hash, stored) == Verdict::Good
    }

    /// Notes a block in `bad` if it is not valid.
    pub fn sift_block(
        &self,
        bad: &mut SortedSet<crate::pipeline::Hash>,
        hash: &crate::pipeline::Hash,
        stored: Option<&[u8]>,
    )
        requires
            self.wf(),
            old(bad).wf(),
            self@.catalog.blocks.contains_key(hash@),
        ensures
            final(bad).wf(),
            final(bad)@ == (if verdict_of(self@.key(), hash@, read_view(stored)) == Verdict::Good {
                old(bad)@
            } else {
                old(bad)@.insert(hash@)
            }),
    {
        if !self.block_is_valid(hash, stored) {
            bad.insert(hash.duplicate());
        }
    }

    /// The blocks that are not valid. `reads` holds what was read for each block in the order
    /// of [`Vault::block_hashes`].
    pub fn bad_blocks(&self, reads: &Vec<Option<Vec<u8>>>) -> (r: SortedSet<crate::pipeline::Hash>)
        requires
            self.wf(),
            reads@.len() == block_order(self@).len(),
        ensures
            r.wf(),
            r@ == invalid_blocks(self@, kept_views(reads@)),
    {
        let hashes = self.block_hashes();
        let ghost order = block_order(self@);
        let ghost views = kept_views(reads@);
        let mut bad: SortedSet<crate::pipeline::Hash> = SortedSet::new();
        let mut i: usize = 0;
        while i < hashes.len()
            invariant
                self.wf(),
                bad.wf(),
                order == block_order(self@),
                order == hash_views(hashes@),
                views == kept_views(reads@),
                i <= hashes@.len(),
                reads@.len() == hashes@.len(),
                forall|j: int|
                    0 <= j < hashes@.len() ==> self@.catalog.blocks.contains_key(
                        (#[trigger] hashes@[j])@,
                    ),
                forall|h: Seq<u8>| #[trigger]
                    bad@.contains(h) <==> exists|j: int|
                        0 <= j < i && #[trigger] order[j] == h && verdict_of(
                            self@.key(),
                            h,
                            views[j],
                        ) != Verdict::Good,
            decreases hashes@.len() - i,
        {
            let stored: Option<&[u8]> = match &reads[i] {
                Some(s) => Some(s.as_slice()),
                None => None,
            };
            let ghost before = bad@;
            self.sift_block(&mut bad, &hashes[i], stored);
            proof {
                assert(order[i as int] == hashes@[i as int]@);
                assert(read_view(stored) == views[i as int]);
                assert forall|h: Seq<u8>| #[trigger] bad@.contains(h) <==> exists|j: int|
                    0 <= j < i + 1 && #[trigger] order[j] == h && verdict_of(
                        self@.key(),
                        h,
                        views[j],
                    ) != Verdict::Good by {
                    if before.contains(h) {
                        let j = choose|j: int|
                            0 <= j < i && #[trigger] order[j] == h && verdict_of(
                                self@.key(),
                                h,
                                views[j],
                            ) != Verdict::Good;
                        assert(order[j] == h);
                    }
                }
            }
            i = i + 1;
        }
        assert(bad@ =~= invalid_blocks(self@, views));
        bad
    }

    /// Counts the chunks of a tree whose block is not in the index.
    fn check_tree(&self, files: &FileMap, report: &mut VerifyReport)
        requires
            self.wf(),
            files.wf(),
        ensures
            final(report)@ == with_missing(
                old(report)@,
                all_tree_notes(self@.catalog.blocks, files@),
            ),
    {
        proof {
            files.lemma_rows();
        }
        let ghost blocks = self@.catalog.blocks;
        let ghost tree = files@;
        let ghost first = report@;
        let ghost order = files.key_seq();
        let mut i: usize = 0;
        while i < files.len()
            invariant
                self.wf(),
                files.wf(),
                tree == files@,
                blocks == self@.catalog.blocks,
                order == files.key_seq(),
                i <= order.len(),
                report@ == with_missing(first, tree_notes(blocks, tree, order, i as int)),
            decreases order.len() - i,
        {
            proof {
                files.lemma_rows();
            }
            let path = files.key_at(i);
            let e = files.value_at(i);
            let ghost chunks = e@.chunks;
            let ghost had = tree_notes(blocks, tree, order, i as int);
            assert(chunks == tree[order[i as int]].chunks);
            let mut j: usize = 0;
            assert(had + file_notes(blocks, path@, chunks, 0) =~= had);
            while j < e.chunks.len()
                invariant
                    self.wf(),
                    blocks == self@.catalog.blocks,
                    chunks == e.chunks@,
                    j <= chunks.len(),
                    report@ == with_missing(
                        first,
                        had + file_notes(blocks, path@, chunks, j as int),
                    ),
                decreases chunks.len() - j,
            {
                let ghost texts = had + file_notes(blocks, path@, chunks, j as int);
                if !self.catalog.blocks.contains_key(&e.chunks[j].hash) {
                    let mut text = path.clone();
                    text.append(": referência a bloco ausente");
                    proof {
                        let more = texts.push(missing_text(path@));
                        assert(had + file_notes(blocks, path@, chunks, j + 1) =~= more);
                        assert(more.drop_last() =~= texts);
                    }
                    report.missing_blocks = report.missing_blocks.saturating_add(1);
                    report.note(text);
                }
                j = j + 1;
            }
            i = i + 1;
        }
    }

    /// Counts the chunks, of the tree and of all snapshots, whose block is not in the index.
    pub fn check_references(&self, report: &mut VerifyReport)
        requires
            self.wf(),
        ensures
            final(report)@ == with_missing(old(report)@, missing_notes(self@)),
    {
        let ghost v = self@;
        let ghost first = report@;
        let ghost tree = all_tree_notes(v.catalog.blocks, v.catalog.files);
        self.check_tree(&self.catalog.files, report);
        let mut i: usize = 0;
        assert(tree + snapshot_notes(v, 0) =~= tree);
        while i < self.catalog.snapshots.len()
            invariant
                self.wf(),
                v == self@,
                i <= self.catalog.snapshots@.len(),
                report@ == with_missing(first, tree + snapshot_notes(v, i as int)),
            decreases self.catalog.snapshots@.len() - i,
        {
            assert(self.catalog.snapshots@[i as int].wf());
            assert(v.catalog.snapshots[i as int] == self.catalog.snapshots@[i as int]@);
            let ghost had = tree + snapshot_notes(v, i as int);
            self.check_tree(&self.catalog.snapshots[i].files, report);
            proof {
                let more = all_tree_notes(
                    v.catalog.blocks,
                    v.catalog.snapshots[i as int].files,
                );
                lemma_with_missing_twice(first, had, more);
                assert(had + more =~= tree + snapshot_notes(v, i + 1));
            }
            i = i + 1;
        }
    }

    /// Checks a whole vault. `reads` holds what was read for each block in the order of
    /// [`Vault::block_hashes`].
    pub fn verify(&self, reads: &Vec<Option<Vec<u8>>>) -> (r: VerifyReport)
        requires
            self.wf(),
            reads@.len() == block_order(self@).len(),
        ensures
            r@ == full_report(self@, verdicts_of(self@, kept_views(reads@))),
    {
        let hashes = self.block_hashes();
        let ghost order = block_order(self@);
        let ghost verdicts = verdicts_of(self@, kept_views(reads@));
        let mut report = VerifyReport::default();
        let mut i: usize = 0;
        while i < hashes.len()
            invariant
                self.wf(),
                order == block_order(self@),
                order == hash_views(hashes@),
                i <= hashes@.len(),
                reads@.len() == hashes@.len(),
                verdicts == verdicts_of(self@, kept_views(reads@)),
                report@ == with_verdicts(empty_report(), verdicts, i as int),
                report@.blocks_ok + report@.blocks_bad == i,
            decreases hashes@.len() - i,
        {
            let stored: Option<&[u8]> = match &reads[i] {
                Some(s) => Some(s.as_slice()),
                None => None,
            };
            proof {
                assert(order[i as int] == hashes@[i as int]@);
                assert(read_view(stored) == kept_views(reads@)[i as int]);
            }
            let verdict = self.check_block(&hashes[i], stored);
            report.record(verdict);
            i = i + 1;
        }
        self.check_references(&mut report);
        report
    }
}

/// Noting texts and then others is noting all of them.
proof fn lemma_all_noted_twice(errors: Seq<Seq<char>>, a: Seq<Seq<char>>, b: Seq<Seq<char>>)
    ensures
        all_noted(all_noted(errors, a), b) == all_noted(errors, a + b),
    decreases b.len(),
{
    if b.len() == 0 {
        assert(a + b =~= a);
    } else {
        lemma_all_noted_twice(errors, a, b.drop_last());
        assert((a + b).drop_last() =~= a + b.drop_last());
        assert((a + b).last() == b.last());
    }
}

proof fn lemma_with_missing_twice(r: ReportView, a: Seq<Seq<char>>, b: Seq<Seq<char>>)
    ensures
        with_missing(with_missing(r, a), b) == with_missing(r, a + b),
{
    lemma_all_noted_twice(r.errors, a, b);
    assert(with_missing(with_missing(r, a), b) =~= with_missing(r, a + b));
}

/// How many of the first `n` verdicts are good.
pub open spec fn good_count(verdicts: Seq<Verdict>, n: int) -> nat
    decreases n,
{
    if n <= 0 {
        0
    } else if verdicts[n - 1] == Verdict::Good {
        good_count(verdicts, n - 1) + 1
    } else {
        good_count(verdicts, n - 1)
    }
}

proof fn lemma_noted_len(errors: Seq<Seq<char>>, texts: Seq<Seq<char>>)
    requires
        errors.len() <= 100,
    ensures
        all_noted(errors, texts).len() == (if errors.len() + texts.len() <= 100 {
            errors.len() + texts.len()
        } else {
            100
        }),
    decreases texts.len(),
{
    if texts.len() > 0 {
        lemma_noted_len(errors, texts.drop_last());
    }
}

proof fn lemma_counts(verdicts: Seq<Verdict>, n: int)
    requires
        0 <= n <= verdicts.len() <= usize::MAX,
    ensures
        ({
            let r = with_verdicts(empty_report(), verdicts, n);
            &&& r.blocks_ok == good_count(verdicts, n)
            &&& r.blocks_bad == n - good_count(verdicts, n)
            &&& r.missing_blocks == 0
            &&& r.errors.len() == (if r.blocks_bad <= 100 {
                r.blocks_bad as nat
            } else {
                100
            })
            &&& good_count(verdicts, n) <= n
        }),
    decreases n,
{
    if n > 0 {
        lemma_counts(verdicts, n - 1);
    }
}

/// A report counts every block once, as good or as bad, and every missing one; it describes as
/// many of the problems as there is room for.
pub proof fn report_adds_up(v: VaultView, verdicts: Seq<Verdict>)
    requires
        verdicts.len() <= usize::MAX,
    ensures
        ({
            let r = full_report(v, verdicts);
            let n = verdicts.len() as int;
            &&& r.blocks_ok == good_count(verdicts, n)
            &&& r.blocks_ok + r.blocks_bad == n
            &&& r.missing_blocks == counted(0, missing_notes(v).len())
            &&& r.errors.len() == (if r.blocks_bad + missing_notes(v).len() <= 100 {
                r.blocks_bad + missing_notes(v).len()
            } else {
                100
            })
        }),
{
    lemma_counts(verdicts, verdicts.len() as int);
    lemma_noted_len(
        with_verdicts(empty_report(), verdicts, verdicts.len() as int).errors,
        missing_notes(v),
    );
}

/// The order of the blocks holds each of them once.
pub proof fn lemma_block_order(v: VaultView)
    requires
        v.catalog.blocks.dom().finite(),
    ensures
        block_order(v).len() == v.catalog.blocks.dom().len(),
        forall|i: int|
            0 <= i < block_order(v).len() ==> v.catalog.blocks.contains_key(
                #[trigger] block_order(v)[i],
            ),
        forall|h: Seq<u8>| #[trigger]
            v.catalog.blocks.contains_key(h) ==> block_order(v).contains(h),
{
    let order = block_order(v);
    crate::sorted::lemma_in_order_exists::<crate::pipeline::Hash>(v.catalog.blocks.dom());
    order.unique_seq_to_set();
    assert forall|i: int| 0 <= i < order.len() implies v.catalog.blocks.contains_key(
        #[trigger] order[i],
    ) by {
        assert(order.to_set().contains(order[i]));
    }
    assert forall|h: Seq<u8>| #[trigger] v.catalog.blocks.contains_key(h) implies order.contains(
        h,
    ) by {
        assert(order.to_set().contains(h));
    }
}

proof fn lemma_all_good(verdicts: Seq<Verdict>, n: int)
    requires
        0 <= n <= verdicts.len(),
        forall|i: int| 0 <= i < verdicts.len() ==> #[trigger] verdicts[i] == Verdict::Good,
    ensures
        good_count(verdicts, n) == n,
    decreases n,
{
    if n > 0 {
        lemma_all_good(verdicts, n - 1);
        assert(verdicts[n - 1] == Verdict::Good);
    }
}

/// Where every block is good, the report counts all of them as good.
pub proof fn lemma_good_blocks_are_counted(v: VaultView, file: Seq<u8>)
    requires
        v.catalog.blocks.dom().finite(),
        v.catalog.blocks.dom().len() <= usize::MAX,
        forall|h: Seq<u8>| #[trigger]
            v.catalog.blocks.contains_key(h) ==> verdict_of(
                v.key(),
                h,
                read_at(file, v.catalog.blocks[h]),
            ) == Verdict::Good,
    ensures
        ({
            let r = full_report(v, verdicts_of(v, reads_of(v, file)));
            r.blocks_bad == 0 && r.blocks_ok == v.catalog.blocks.dom().len()
        }),
{
    let verdicts = verdicts_of(v, reads_of(v, file));
    lemma_block_order(v);
    assert forall|i: int| 0 <= i < verdicts.len() implies #[trigger] verdicts[i]
        == Verdict::Good by {
        assert(v.catalog.blocks.contains_key(block_order(v)[i]));
    }
    lemma_all_good(verdicts, verdicts.len() as int);
    report_adds_up(v, verdicts);
}

} // verus!
