//! A vault from end to end, with a vector of bytes in place of the file.

use fastcdc::v2020::StreamCDC;
use fsm_core::cache::{BlockCache, DEFAULT_CACHE_CAP};
use fsm_core::catalog::{BlockRef, Catalog, ChunkRef, FileEntry, Snapshot};
use fsm_core::chunking::{cdc_params, DEFAULT_AVG_CHUNK};
use fsm_core::error::VaultError;
use fsm_core::header::{token_fits, FORMAT_VERSION, HEADER_SIZE};
use fsm_core::sorted::{SortedMap, SortedSet};
use fsm_core::vault::add::Intake;
use fsm_core::vault::commit::{place_catalog, CatalogWrite};
use fsm_core::vault::fetch::Found;
use fsm_core::vault::integrity::{judge, Verdict, VerifyReport};
use fsm_core::vault::open::{catalog_codec, CatalogCodec};
use fsm_core::vault::repair::RepairReport;
use fsm_core::vault::rewrite::CompactReport;
use fsm_core::vault::stats::Stats;
use fsm_core::vault::stream::{switch_to_fallback, StreamStep, StreamWriter};
use fsm_core::vault::tree::NodeKind;
use fsm_core::vault::write::BlockWrite;
use fsm_core::vault::Vault;
use std::sync::Arc;

fn put_u64(out: &mut Vec<u8>, n: u64) {
    out.extend_from_slice(&n.to_le_bytes());
}

fn put_bytes(out: &mut Vec<u8>, b: &[u8]) {
    put_u64(out, b.len() as u64);
    out.extend_from_slice(b);
}

fn put_files(out: &mut Vec<u8>, files: &SortedMap<String, FileEntry>) {
    put_u64(out, files.len() as u64);
    for i in 0..files.len() {
        let e = files.value_at(i);
        put_bytes(out, files.key_at(i).as_bytes());
        put_u64(out, e.size);
        put_u64(out, e.mtime as u64);
        put_u64(out, e.chunks.len() as u64);
        for c in &e.chunks {
            out.extend_from_slice(&c.hash);
            put_u64(out, c.len as u64);
        }
    }
}

fn put_dirs(out: &mut Vec<u8>, dirs: &SortedSet<String>) {
    put_u64(out, dirs.len() as u64);
    for i in 0..dirs.len() {
        put_bytes(out, dirs.key_at(i).as_bytes());
    }
}

fn encode(c: &Catalog) -> Vec<u8> {
    let mut out = Vec::new();
    put_u64(&mut out, c.blocks.len() as u64);
    for i in 0..c.blocks.len() {
        let b = c.blocks.value_at(i);
        out.extend_from_slice(c.blocks.key_at(i));
        put_u64(&mut out, b.offset);
        put_u64(&mut out, b.len as u64);
        put_u64(&mut out, b.raw_len as u64);
    }
    put_files(&mut out, &c.files);
    put_dirs(&mut out, &c.dirs);
    put_u64(&mut out, c.snapshots.len() as u64);
    for s in &c.snapshots {
        put_bytes(&mut out, s.name.as_bytes());
        put_u64(&mut out, s.created as u64);
        put_files(&mut out, &s.files);
        put_dirs(&mut out, &s.dirs);
    }
    match c.quota {
        Some(q) => {
            put_u64(&mut out, 1);
            put_u64(&mut out, q);
        }
        None => put_u64(&mut out, 0),
    }
    out
}

struct Reader<'a> {
    b: &'a [u8],
}

impl Reader<'_> {
    fn take(&mut self, n: usize) -> Vec<u8> {
        let r = self.b[..n].to_vec();
        self.b = &self.b[n..];
        r
    }
    fn u64(&mut self) -> u64 {
        u64::from_le_bytes(self.take(8).try_into().unwrap())
    }
    fn hash(&mut self) -> [u8; 32] {
        self.take(32).try_into().unwrap()
    }
    fn text(&mut self) -> String {
        let n = self.u64() as usize;
        String::from_utf8(self.take(n)).unwrap()
    }
    fn files(&mut self) -> SortedMap<String, FileEntry> {
        let mut files = SortedMap::new();
        for _ in 0..self.u64() {
            let path = self.text();
            let size = self.u64();
            let mtime = self.u64() as i64;
            let mut chunks = Vec::new();
            for _ in 0..self.u64() {
                let hash = self.hash();
                let len = self.u64() as u32;
                chunks.push(ChunkRef { hash, len });
            }
            files.insert(path, FileEntry { size, mtime, chunks });
        }
        files
    }
    fn dirs(&mut self) -> SortedSet<String> {
        let mut dirs = SortedSet::new();
        for _ in 0..self.u64() {
            let d = self.text();
            dirs.insert(d);
        }
        dirs
    }
}

fn decode(b: &[u8]) -> Catalog {
    let mut r = Reader { b };
    let mut c = Catalog::default();
    for _ in 0..r.u64() {
        let hash = r.hash();
        let offset = r.u64();
        let len = r.u64() as u32;
        let raw_len = r.u64() as u32;
        c.blocks.insert(hash, BlockRef { offset, len, raw_len });
    }
    c.files = r.files();
    c.dirs = r.dirs();
    for _ in 0..r.u64() {
        let name = r.text();
        let created = r.u64() as i64;
        let files = r.files();
        let dirs = r.dirs();
        c.snapshots.push(Snapshot { name, created, files, dirs });
    }
    if r.u64() == 1 {
        c.quota = Some(r.u64());
    }
    c
}

/// A vault and the bytes of its file.
struct Disk {
    bytes: Vec<u8>,
    v: Vault,
    cache: BlockCache,
}

fn put_at(bytes: &mut Vec<u8>, at: u64, data: &[u8]) {
    let at = at as usize;
    if bytes.len() < at + data.len() {
        bytes.resize(at + data.len(), 0);
    }
    bytes[at..at + data.len()].copy_from_slice(data);
}

fn put_catalog(bytes: &mut Vec<u8>, w: &CatalogWrite) {
    put_at(bytes, w.offset, &w.bytes);
    put_at(bytes, 0, &w.header);
}

impl Disk {
    fn new(v: Vault) -> Disk {
        let mut d = Disk {
            bytes: vec![0; HEADER_SIZE as usize],
            v,
            cache: BlockCache::new(DEFAULT_CACHE_CAP),
        };
        d.commit();
        d
    }

    fn create(chunk_size: u32) -> Disk {
        Disk::new(Vault::create(chunk_size))
    }

    fn open(bytes: &[u8], password: Option<&str>) -> Result<Disk, VaultError> {
        let header = &bytes[..HEADER_SIZE as usize];
        assert!(token_fits(header));
        let o = Vault::open(header, password)?;
        let h = o.header();
        let from = h.catalog_offset as usize;
        let stored = bytes[from..from + h.catalog_len as usize].to_vec();
        let raw = o.unseal_catalog(stored)?;
        Ok(Disk {
            bytes: bytes.to_vec(),
            v: o.finish(decode(&raw)),
            cache: BlockCache::new(DEFAULT_CACHE_CAP),
        })
    }

    fn write(&mut self, out: Vec<BlockWrite>) {
        for w in &out {
            put_at(&mut self.bytes, w.offset, &w.bytes);
        }
    }

    fn commit(&mut self) {
        let w = self.v.commit(encode(self.v.catalog())).unwrap();
        put_catalog(&mut self.bytes, &w);
        self.v.committed(&w);
    }

    fn add_file(&mut self, data: &[u8], dest: &str) -> Result<(), VaultError> {
        let p = cdc_params(self.v.chunk_size());
        let mut intake = Intake::new();
        for chunk in StreamCDC::new(data, p.min, p.avg, p.max) {
            let mut out = Vec::new();
            let r = self.v.add_chunk(&mut intake, &chunk.unwrap().data, &mut out);
            self.write(out);
            r?;
        }
        assert_eq!(intake.total(), data.len() as u64);
        self.v.finish_add(intake, dest, 1);
        Ok(())
    }

    fn write_file(&mut self, path: &str, data: &[u8], mtime: i64) -> Result<(), VaultError> {
        let mut out = Vec::new();
        let r = self.v.write_file(path, data, mtime, &mut out);
        self.write(out);
        r
    }

    fn block(&mut self, hash: &[u8; 32]) -> Result<Arc<Vec<u8>>, VaultError> {
        match self.v.find_block(&self.cache, hash)? {
            Found::Cached(data) => Ok(data),
            Found::Stored(b) => {
                let from = b.offset as usize;
                let stored = self.bytes[from..from + b.len as usize].to_vec();
                self.v.admit_block(&mut self.cache, hash, &stored)
            }
        }
    }

    fn extract(&mut self, path: &str) -> Result<Vec<u8>, VaultError> {
        let mut out = Vec::new();
        for h in self.v.extract(path)? {
            out.extend_from_slice(&self.block(&h)?);
        }
        Ok(out)
    }

    fn read_range(&mut self, path: &str, offset: u64, len: usize) -> Result<Vec<u8>, VaultError> {
        let plan = self.v.plan_read(path, offset, len)?;
        let mut i = 0;
        while let Some(run) = self.v.next_run(&self.cache, plan.needed(), i)? {
            let from = run.start() as usize;
            let buf = self.bytes[from..from + run.len() as usize].to_vec();
            self.v.absorb_run(&mut self.cache, &run, &buf)?;
            i = run.next();
        }
        let mut blocks = Vec::new();
        for (h, _) in plan.needed() {
            blocks.push(self.block(h)?);
        }
        assert!(plan.fits(&blocks));
        Ok(plan.assemble(&blocks))
    }

    fn stream_write(&mut self, w: &mut StreamWriter, offset: u64, data: &[u8]) {
        loop {
            let mut out = Vec::new();
            let step = self.v.stream_write(w, offset, data, &mut out);
            self.write(out);
            match step.unwrap() {
                StreamStep::Done => return,
                StreamStep::NeedsContent => {
                    let hashes: Vec<[u8; 32]> =
                        w.stored_chunks().iter().map(|c| c.hash).collect();
                    let mut blocks = Vec::new();
                    for h in &hashes {
                        blocks.push(self.block(h).unwrap());
                    }
                    switch_to_fallback(w, &blocks);
                }
            }
        }
    }

    fn finish_write(&mut self, w: StreamWriter, path: &str, mtime: i64) {
        let mut out = Vec::new();
        self.v.finish_write(w, path, mtime, &mut out).unwrap();
        self.write(out);
    }

    fn reads(&self) -> Vec<Option<Vec<u8>>> {
        self.v
            .block_hashes()
            .iter()
            .map(|h| {
                let b = self.v.block_place(h).unwrap();
                let from = b.offset as usize;
                self.bytes.get(from..from + b.len as usize).map(|s| s.to_vec())
            })
            .collect()
    }

    fn verify(&self) -> VerifyReport {
        self.v.verify(&self.reads())
    }

    fn repair(&mut self) -> RepairReport {
        let bad = self.v.bad_blocks(&self.reads());
        assert!(self.v.lengths_fit());
        self.v.repair(&bad)
    }

    fn compact(&self) -> (Vec<u8>, CompactReport) {
        assert!(self.v.packed_end() <= u64::MAX as u128);
        let plan = self.v.compact_to();
        let mut file = vec![0; HEADER_SIZE as usize];
        for c in &plan.copies {
            let from = c.from as usize;
            let stored = self.bytes[from..from + c.len as usize].to_vec();
            put_at(&mut file, c.to, &stored);
        }
        let w = self.v.commit_at(plan.end, encode(&plan.catalog)).unwrap();
        put_catalog(&mut file, &w);
        let report =
            self.v.compact_report(&plan, self.bytes.len() as u64, w.bytes.len() as u64);
        (file, report)
    }

    fn rekey(&mut self, password: Option<&str>) -> Vec<u8> {
        let mut s = Vault::rekey_to(password).unwrap();
        let mut file = vec![0; HEADER_SIZE as usize];
        for h in self.v.live_blocks() {
            let plain = self.block(&h).unwrap();
            let w = self.v.rekey_block(&mut s, &h, &plain).unwrap();
            put_at(&mut file, w.offset, &w.bytes);
        }
        let done = self.v.rekey_finish(s);
        let w = place_catalog(
            self.v.chunk_size(),
            done.end,
            encode(&done.catalog),
            done.enc.as_ref(),
        )
        .unwrap();
        put_catalog(&mut file, &w);
        file
    }

    fn stats(&self) -> Stats {
        let t = self.v.totals();
        assert!(t.logical <= u64::MAX as u128);
        assert!(t.unique_raw <= u64::MAX as u128);
        assert!(t.physical <= u64::MAX as u128);
        self.v.stats()
    }

    fn has_file(&self, path: &str) -> bool {
        self.v.catalog().files.contains_key(&path.to_string())
    }
}

fn pseudo_random(seed: u32, n: usize) -> Vec<u8> {
    let mut x = seed | 1;
    (0..n)
        .map(|_| {
            x ^= x << 13;
            x ^= x >> 17;
            x ^= x << 5;
            (x & 0xff) as u8
        })
        .collect()
}

#[test]
fn roundtrip_and_dedup() {
    let mut d = Disk::create(64);
    d.add_file(b"conteudo identico repetido", "a.bin").unwrap();
    d.add_file(b"conteudo identico repetido", "b.bin").unwrap();
    d.commit();

    let s = d.stats();
    assert_eq!(s.files, 2);
    assert_eq!(s.unique_blocks, 1, "dedup deveria colapsar blocos iguais");

    let mut d2 = Disk::open(&d.bytes, None).unwrap();
    assert_eq!(d2.extract("a.bin").unwrap(), b"conteudo identico repetido");
}

#[test]
fn rm_mv_and_gc_reclaim_space() {
    let big = pseudo_random(1, 50_000);
    let keep = pseudo_random(2, 10_000);
    let mut d = Disk::create(4096);
    d.add_file(&big, "/lixo/big.bin").unwrap();
    d.add_file(&keep, "keep.bin").unwrap();
    d.commit();
    let before = d.stats().unique_blocks;

    d.v.rename("keep.bin", "/docs/keep.bin").unwrap();
    let removed = d.v.remove_dir("/lixo");
    assert_eq!(removed, 1);
    d.commit();

    assert!(d.has_file("/docs/keep.bin"));
    assert!(!d.has_file("/lixo/big.bin"));

    let (file, report) = d.compact();
    assert!(report.blocks_after < before, "gc deveria remover blocos órfãos");
    assert!(report.reclaimed_bytes() > 30_000, "deveria recuperar o arquivo grande");
    assert_eq!(report.blocks_before, before);
    assert_eq!(report.bytes_before, d.bytes.len() as u64);
    assert_eq!(report.bytes_after, file.len() as u64);

    let mut d2 = Disk::open(&file, None).unwrap();
    assert_eq!(d2.extract("/docs/keep.bin").unwrap(), keep);
}

#[test]
fn verify_detects_corruption() {
    let mut d = Disk::create(DEFAULT_AVG_CHUNK);
    d.add_file(&pseudo_random(7, 100_000), "a.bin").unwrap();
    d.commit();

    let rep = d.verify();
    assert!(rep.is_healthy());
    assert!(rep.blocks_ok > 0 && rep.blocks_bad == 0);

    d.bytes[5000..5128].copy_from_slice(&[0xFF; 128]);
    let d2 = Disk::open(&d.bytes, None).unwrap();
    let rep2 = d2.verify();
    assert!(!rep2.is_healthy());
    assert!(rep2.blocks_bad > 0);
}

#[test]
fn opens_and_migrates_a_v8_vault() {
    let mut cat = Catalog::default();
    cat.files.insert(
        "/legado.txt".to_string(),
        FileEntry { size: 0, mtime: 7, chunks: vec![] },
    );
    cat.dirs.insert("/pasta".to_string());
    let raw = encode(&cat);
    let mut file = vec![0u8; HEADER_SIZE as usize];
    file.extend_from_slice(&raw);
    file[0..8].copy_from_slice(b"FSMVLT01");
    file[8..12].copy_from_slice(&8u32.to_le_bytes());
    file[12..16].copy_from_slice(&DEFAULT_AVG_CHUNK.to_le_bytes());
    file[16..24].copy_from_slice(&HEADER_SIZE.to_le_bytes());
    file[24..32].copy_from_slice(&(raw.len() as u64).to_le_bytes());

    let o = Vault::open(&file[..HEADER_SIZE as usize], None).unwrap();
    assert_eq!(o.header().version, 8);
    assert_eq!(catalog_codec(o.header().version), Ok(CatalogCodec::Bincode));

    let mut d = Disk::open(&file, None).unwrap();
    assert!(d.v.resolve("/legado.txt").is_some());
    assert!(d.v.catalog().dirs.contains(&"/pasta".to_string()));
    d.commit();

    let d2 = Disk::open(&d.bytes, None).unwrap();
    assert!(d2.v.resolve("/legado.txt").is_some());
    let ver = u32::from_le_bytes(d.bytes[8..12].try_into().unwrap());
    assert_eq!(ver, FORMAT_VERSION, "deveria ter migrado para o formato atual");
    assert_eq!(catalog_codec(ver), Ok(CatalogCodec::MessagePack));
}

#[test]
fn search_finds_across_subfolders() {
    let mut d = Disk::create(DEFAULT_AVG_CHUNK);
    d.write_file("/docs/relatorio.pdf", b"a", 1).unwrap();
    d.write_file("/docs/2020/foto.jpg", b"b", 1).unwrap();
    d.write_file("/notas.txt", b"c", 1).unwrap();
    d.v.create_dir("/relatorios").unwrap();
    d.commit();
    let v = &d.v;

    let hits = v.search("relat");
    let paths: Vec<&str> = hits.iter().map(|h| h.path.as_str()).collect();
    assert!(paths.contains(&"/docs/relatorio.pdf"));
    assert!(paths.contains(&"/relatorios"));
    assert!(hits[0].is_dir);

    let foto = v.search("FOTO");
    assert_eq!(foto.len(), 1);
    assert_eq!(foto[0].path, "/docs/2020/foto.jpg");
    assert!(!foto[0].is_dir);

    let docs = v.search("docs");
    assert!(docs.iter().any(|h| h.path == "/docs" && h.is_dir));

    let frag = v.search("docs/2020");
    assert!(frag.iter().any(|h| h.path == "/docs/2020/foto.jpg"));
    assert!(frag.iter().any(|h| h.path == "/docs/2020" && h.is_dir));

    assert!(v.search("").is_empty());
}

#[test]
fn repair_truncates_then_verifies_clean() {
    let data = pseudo_random(11, 300_000);
    let mut d = Disk::create(DEFAULT_AVG_CHUNK);
    d.add_file(&data, "a.bin").unwrap();
    d.commit();
    let path = "/a.bin".to_string();
    assert!(d.v.catalog().files.get(&path).unwrap().chunks.len() >= 3);

    d.bytes[4096 + 90_000..4096 + 90_512].copy_from_slice(&[0xAA; 512]);
    let mut d2 = Disk::open(&d.bytes, None).unwrap();
    assert!(!d2.verify().is_healthy());

    let rep = d2.repair();
    assert_eq!(rep.files_damaged, 1);
    d2.commit();

    assert!(d2.verify().is_healthy());
    let left = d2.v.catalog().files.get(&path).map(|e| e.size);
    if let Some(size) = left {
        assert!(size < data.len() as u64);
        let got = d2.read_range("/a.bin", 0, size as usize).unwrap();
        assert_eq!(got, &data[..size as usize]);
        assert_eq!(rep.truncated, vec![(path, size)]);
    } else {
        assert_eq!(rep.removed, vec![path]);
    }
}

#[test]
fn quota_and_rekey() {
    let mut d = Disk::create(DEFAULT_AVG_CHUNK);
    d.v.set_quota(Some(100_000));
    assert_eq!(d.v.quota(), Some(100_000));
    d.add_file(b"oi", "s.txt").unwrap();
    d.commit();
    assert_eq!(
        d.add_file(&pseudo_random(1, 300_000), "big.bin"),
        Err(VaultError::QuotaExceeded(100_000))
    );

    let rk = d.rekey(Some("senha"));
    let mut d2 = Disk::open(&rk, Some("senha")).unwrap();
    assert!(d2.v.is_encrypted());
    assert_eq!(d2.v.quota(), Some(100_000));
    assert_eq!(d2.extract("s.txt").unwrap(), b"oi");
    assert_eq!(Disk::open(&rk, None).err(), Some(VaultError::PasswordRequired));

    let rk2 = d2.rekey(None);
    let mut d3 = Disk::open(&rk2, None).unwrap();
    assert!(!d3.v.is_encrypted());
    assert_eq!(d3.extract("s.txt").unwrap(), b"oi");
}

#[test]
fn stream_write_sequential_and_random_fallback() {
    let mut d = Disk::create(DEFAULT_AVG_CHUNK);
    let data = pseudo_random(3, 500_000);
    let mut w = d.v.stream_writer();
    assert!(w.is_empty());
    let mut off = 0u64;
    for piece in data.chunks(64 * 1024) {
        d.stream_write(&mut w, off, piece);
        off += piece.len() as u64;
    }
    assert_eq!(w.len(), data.len() as u64);
    d.finish_write(w, "/seq.bin", 1);
    d.commit();
    assert_eq!(d.read_range("/seq.bin", 0, data.len()).unwrap(), data);
    assert_eq!(
        d.read_range("/seq.bin", 200_000, 50_000).unwrap(),
        &data[200_000..250_000]
    );

    let mut w2 = d.v.stream_writer();
    d.stream_write(&mut w2, 5, b"BBBBB");
    d.stream_write(&mut w2, 0, b"AAAAA");
    d.finish_write(w2, "/rnd.bin", 1);
    d.commit();
    assert_eq!(d.read_range("/rnd.bin", 0, 100).unwrap(), b"AAAAABBBBB");
}

#[test]
fn write_file_overwrite_and_explicit_dirs() {
    let mut d = Disk::create(DEFAULT_AVG_CHUNK);
    d.v.create_dir("/novo").unwrap();
    assert!(matches!(d.v.resolve("/novo"), Some(NodeKind::Dir)));

    d.write_file("/novo/a.txt", b"primeira versao", 100).unwrap();
    d.commit();
    assert_eq!(d.read_range("/novo/a.txt", 0, 4096).unwrap(), b"primeira versao");

    d.write_file("/novo/a.txt", b"segunda versao, bem maior que a primeira", 200).unwrap();
    d.commit();
    assert_eq!(
        d.read_range("/novo/a.txt", 0, 4096).unwrap(),
        b"segunda versao, bem maior que a primeira"
    );
    assert!(matches!(
        d.v.resolve("/novo/a.txt"),
        Some(NodeKind::File { size: 40, .. })
    ));

    assert!(d.v.list_dir("/").iter().any(|e| e.name == "novo" && e.is_dir));
    assert!(d.v.list_dir("/novo").iter().any(|e| e.name == "a.txt" && !e.is_dir));

    let d2 = Disk::open(&d.bytes, None).unwrap();
    assert!(matches!(d2.v.resolve("/novo"), Some(NodeKind::Dir)));
    assert!(matches!(d2.v.resolve("/novo/a.txt"), Some(NodeKind::File { .. })));
}

#[test]
fn resolve_ci_is_case_insensitive() {
    let mut d = Disk::create(DEFAULT_AVG_CHUNK);
    d.v.create_dir("/Docs").unwrap();
    d.write_file("/Docs/Arquivo.TXT", b"x", 1).unwrap();
    d.commit();

    let (real, kind) = d.v.resolve_ci("/docs/arquivo.txt").unwrap();
    assert_eq!(real, "/Docs/Arquivo.TXT");
    assert!(matches!(kind, NodeKind::File { .. }));

    let (real, kind) = d.v.resolve_ci("/DOCS").unwrap();
    assert_eq!(real, "/Docs");
    assert!(matches!(kind, NodeKind::Dir));

    d.write_file("/Outro/sub/f.bin", b"y", 1).unwrap();
    let (real, kind) = d.v.resolve_ci("/outro").unwrap();
    assert_eq!(real, "/Outro");
    assert!(matches!(kind, NodeKind::Dir));

    assert!(d.v.resolve_ci("/naoexiste").is_none());
}

#[test]
fn read_range_and_directory_listing() {
    let big = pseudo_random(77, 300_000);
    let mut d = Disk::create(DEFAULT_AVG_CHUNK);
    d.add_file(&big, "/docs/big.bin").unwrap();
    d.add_file(b"oi", "/note.txt").unwrap();
    d.commit();

    let off = 130_000u64;
    let n = 90_000usize;
    let got = d.read_range("/docs/big.bin", off, n).unwrap();
    assert_eq!(got, &big[off as usize..off as usize + n]);

    let tail = d.read_range("/docs/big.bin", 299_990, 1000).unwrap();
    assert_eq!(tail, &big[299_990..]);

    assert!(matches!(d.v.resolve("/"), Some(NodeKind::Dir)));
    assert!(matches!(d.v.resolve("/docs"), Some(NodeKind::Dir)));
    assert!(matches!(d.v.resolve("/docs/big.bin"), Some(NodeKind::File { .. })));
    assert!(d.v.resolve("/naoexiste").is_none());

    let root = d.v.list_dir("/");
    let names: Vec<_> = root.iter().map(|e| (e.name.as_str(), e.is_dir)).collect();
    assert_eq!(names, vec![("docs", true), ("note.txt", false)]);
    assert_eq!(root[0].size, 300_000);
    assert_eq!(root[1].size, 2);

    let docs = d.v.list_dir("/docs");
    assert_eq!(docs.len(), 1);
    assert_eq!(docs[0].name, "big.bin");
    assert!(!docs[0].is_dir);
}

#[test]
fn fastcdc_dedups_across_insertion() {
    let base = pseudo_random(12_345, 1 << 20);
    let mut modified = pseudo_random(999, 137);
    modified.extend_from_slice(&base);

    let mut d = Disk::create(DEFAULT_AVG_CHUNK);
    d.add_file(&base, "a.bin").unwrap();
    let blocks_a = d.stats().unique_blocks;
    assert!(blocks_a > 4, "1 MiB deveria virar vários chunks (got {blocks_a})");

    d.add_file(&modified, "b.bin").unwrap();
    let added = d.stats().unique_blocks - blocks_a;
    assert!(
        added * 2 < blocks_a,
        "FastCDC deveria compartilhar a maioria dos blocos após inserção \
         (a={blocks_a}, novos em b={added})"
    );
    assert_eq!(d.extract("b.bin").unwrap(), modified);
}

#[test]
fn snapshot_restore_and_gc_preserves_history() {
    let mut d = Disk::create(64);
    d.add_file(b"versao um do documento", "doc.txt").unwrap();
    d.v.snapshot_create("v1", 5).unwrap();

    d.add_file(b"versao DOIS bem diferente do documento", "doc.txt").unwrap();
    d.commit();
    assert_eq!(d.v.snapshots().len(), 1);

    d.v.snapshot_restore("v1").unwrap();
    d.commit();
    assert_eq!(d.extract("doc.txt").unwrap(), b"versao um do documento");

    let d2 = Disk::open(&d.bytes, None).unwrap();
    let (file, _) = d2.compact();
    let mut d3 = Disk::open(&file, None).unwrap();
    assert_eq!(d3.v.snapshots().len(), 1);
    assert_eq!(d3.extract("doc.txt").unwrap(), b"versao um do documento");
}

#[test]
fn encrypted_roundtrip_and_wrong_password() {
    let payload = b"informacao confidencial muito importante".repeat(100);
    let mut d = Disk::new(Vault::create_encrypted(1024, "senha-forte").unwrap());
    d.add_file(&payload, "segredo.txt").unwrap();
    d.commit();

    assert_eq!(
        Disk::open(&d.bytes, Some("senha-errada")).err(),
        Some(VaultError::WrongPassword)
    );
    assert_eq!(Disk::open(&d.bytes, None).err(), Some(VaultError::PasswordRequired));

    let mut d2 = Disk::open(&d.bytes, Some("senha-forte")).unwrap();
    assert!(d2.v.is_encrypted());
    assert_eq!(d2.extract("segredo.txt").unwrap(), payload);

    let needle = b"informacao confidencial";
    let leaked = d.bytes.windows(needle.len()).any(|w| w == needle);
    assert!(!leaked, "texto-claro vazou no container cifrado");
}

#[test]
fn refused_requests_name_their_reason() {
    let mut d = Disk::create(DEFAULT_AVG_CHUNK);
    d.write_file("/a.txt", b"a", 1).unwrap();
    assert_eq!(d.v.create_dir("/a.txt"), Err(VaultError::FileInTheWay));
    assert_eq!(d.v.create_dir("/"), Ok(()));
    assert_eq!(d.v.rename("/nada", "/b"), Err(VaultError::SourceNotFound));
    assert_eq!(d.extract("/nada").err(), Some(VaultError::FileNotFound));
    assert_eq!(d.read_range("/nada", 0, 1).err(), Some(VaultError::FileNotFound));
    assert_eq!(d.v.snapshot_create("  ", 1), Err(VaultError::EmptySnapshotName));
    assert_eq!(d.v.snapshot_create("s", 1), Ok(()));
    assert_eq!(d.v.snapshot_create("s", 2), Err(VaultError::SnapshotExists));
    assert_eq!(d.v.snapshot_restore("t"), Err(VaultError::SnapshotNotFound));
    assert!(!d.v.snapshot_delete("t"));
    assert!(d.v.snapshot_delete("s"));
    assert!(d.v.snapshots().is_empty());
    assert!(!d.v.remove("/nada"));
    assert!(!d.v.remove_empty_dir("/nada"));

    let mut broken = d.bytes.clone();
    broken[0] = b'X';
    assert_eq!(Disk::open(&broken, None).err(), Some(VaultError::BadSignature));
    let mut newer = d.bytes.clone();
    newer[8] = 10;
    assert_eq!(Disk::open(&newer, None).err(), Some(VaultError::UnsupportedVersion(10)));
    assert_eq!(catalog_codec(7), Err(VaultError::UnsupportedVersion(7)));
}

#[test]
fn missing_block_is_told() {
    let mut d = Disk::create(DEFAULT_AVG_CHUNK);
    let gone = ChunkRef { hash: [9; 32], len: 3 };
    d.v.link_file("/a.bin", 3, 1, vec![gone]);
    assert_eq!(d.extract("/a.bin").err(), Some(VaultError::MissingBlock));
    assert_eq!(d.read_range("/a.bin", 0, 3).err(), Some(VaultError::MissingBlock));
    let r = d.verify();
    assert_eq!(r.missing_blocks, 1);
    assert_eq!(r.errors, vec!["/a.bin: referência a bloco ausente".to_string()]);
    let fixed = d.repair();
    assert_eq!(fixed.removed, vec!["/a.bin".to_string()]);
    assert!(d.verify().is_healthy());
}

#[test]
fn renamed_directory_takes_its_files_along() {
    let mut d = Disk::create(DEFAULT_AVG_CHUNK);
    d.write_file("/a/x.txt", b"x", 1).unwrap();
    d.write_file("/a/b/y.txt", b"y", 2).unwrap();
    d.v.create_dir("/a/vazio").unwrap();
    d.v.rename("/a", "/z").unwrap();
    assert_eq!(d.extract("/z/x.txt").unwrap(), b"x");
    assert_eq!(d.extract("/z/b/y.txt").unwrap(), b"y");
    assert!(d.v.catalog().dirs.contains(&"/z/vazio".to_string()));
    assert!(d.v.resolve("/a").is_none());
}

#[test]
fn writes_that_fail_are_taken_back() {
    let mut d = Disk::create(DEFAULT_AVG_CHUNK);
    let used = d.v.used_bytes();
    let mut out = Vec::new();
    let chunks = d.v.store_data(&pseudo_random(5, 200_000), &mut out).unwrap();
    assert_eq!(chunks.len(), out.len());
    assert!(out.len() > 1);
    d.v.retract(&out, 1);
    assert_eq!(d.v.used_bytes(), out[1].offset);
    assert_eq!(d.stats().unique_blocks, 1);
    d.v.retract(&out, 0);
    assert_eq!(d.v.used_bytes(), used);
    assert_eq!(d.stats().unique_blocks, 0);
}

#[test]
fn writer_turns_into_its_content() {
    let mut d = Disk::create(1024);
    let data = pseudo_random(8, 60_000);
    let mut w = d.v.stream_writer();
    d.stream_write(&mut w, 0, &data);
    assert!(!w.stored_chunks().is_empty());
    let hashes: Vec<[u8; 32]> = w.stored_chunks().iter().map(|c| c.hash).collect();
    let mut blocks = Vec::new();
    for h in &hashes {
        blocks.push(d.block(h).unwrap());
    }
    assert_eq!(d.v.writer_to_buffer(w, &blocks), data);
}

#[test]
fn stats_add_up() {
    let mut d = Disk::create(DEFAULT_AVG_CHUNK);
    d.write_file("/a", b"aaaa", 1).unwrap();
    d.write_file("/b", b"aaaa", 1).unwrap();
    d.v.set_quota(Some(9));
    let s = d.stats();
    assert_eq!(s.logical_bytes, 8);
    assert_eq!(s.unique_raw_bytes, 4);
    assert_eq!(s.physical_bytes, 5);
    assert_eq!(s.quota, Some(9));
    assert_eq!(s.used_bytes, d.v.used_bytes());
    assert!(!s.encrypted);
    assert_eq!(s.snapshots, 0);
}

#[test]
fn higher_level_is_used_for_new_blocks() {
    let mut d = Disk::create(DEFAULT_AVG_CHUNK);
    d.v.set_zstd_level(19);
    let data = b"texto que se repete, ".repeat(200);
    d.write_file("/t", &data, 1).unwrap();
    assert!(d.stats().physical_bytes < data.len() as u64 / 10);
    assert_eq!(d.extract("/t").unwrap(), data);
}

#[test]
fn block_is_judged_by_its_content() {
    let hash = *blake3::hash(b"abc").as_bytes();
    assert_eq!(judge(&hash, &Ok(b"abc".to_vec())), Verdict::Good);
    assert_eq!(judge(&hash, &Ok(b"abd".to_vec())), Verdict::Mismatch);
    assert_eq!(judge(&hash, &Err(VaultError::DecompressBlock)), Verdict::Undecodable);
}

#[test]
fn known_content_is_not_written_again() {
    let mut d = Disk::create(DEFAULT_AVG_CHUNK);
    let data = pseudo_random(3, 200_000);
    let mut out = Vec::new();
    d.v.write_file("/a", &data, 1, &mut out).unwrap();
    let n = out.len();
    assert!(n > 0);
    for i in 0..n {
        for j in 0..i {
            assert_ne!(out[i].hash, out[j].hash);
        }
    }
    d.v.write_file("/b", &data, 2, &mut out).unwrap();
    assert_eq!(out.len(), n);
    d.write(out);
    assert_eq!(d.extract("/a").unwrap(), data);
    assert_eq!(d.extract("/b").unwrap(), data);
}

#[test]
fn empty_reports_hold_nothing() {
    let v = VerifyReport::default();
    assert!(v.is_healthy() && v.blocks_ok == 0 && v.errors.is_empty());
    let r = RepairReport::default();
    assert!(r.files_damaged == 0 && r.removed.is_empty() && r.truncated.is_empty());
}

#[test]
fn damage_in_snapshots_is_found_and_mended() {
    let mut d = Disk::create(DEFAULT_AVG_CHUNK);
    let old = pseudo_random(5, 300_000);
    d.write_file("/a.bin", &old, 1).unwrap();
    d.v.snapshot_create("antes", 2).unwrap();
    d.write_file("/a.bin", b"novo", 3).unwrap();
    d.commit();
    assert!(d.verify().is_healthy());

    let hash = d.v.snapshots()[0].files.get(&"/a.bin".to_string()).unwrap().chunks[1].hash;
    let at = d.v.block_place(&hash).unwrap().offset as usize;
    d.bytes[at + 100] ^= 0xff;
    let r = d.verify();
    assert_eq!((r.blocks_bad, r.missing_blocks), (1, 0));

    let fixed = d.repair();
    assert_eq!(fixed.files_damaged, 0);
    assert_eq!(fixed.snapshot_files_damaged, 1);
    let cut = d.v.snapshots()[0].files.get(&"/a.bin".to_string()).unwrap();
    assert_eq!(cut.chunks.len(), 1);
    assert_eq!(cut.size, cut.chunks[0].len as u64);
    assert!(d.verify().is_healthy());
    let again = d.repair();
    assert_eq!((again.files_damaged, again.snapshot_files_damaged), (0, 0));
    assert_eq!(d.extract("/a.bin").unwrap(), b"novo");
}

#[test]
fn missing_block_of_a_snapshot_is_told() {
    let mut d = Disk::create(DEFAULT_AVG_CHUNK);
    d.v.link_file("/a.bin", 3, 1, vec![ChunkRef { hash: [9; 32], len: 3 }]);
    d.v.snapshot_create("s", 2).unwrap();
    assert!(d.v.remove("/a.bin"));
    let r = d.verify();
    assert_eq!(r.missing_blocks, 1);
    assert!(!r.is_healthy());
    assert_eq!(r.errors, vec!["/a.bin: referência a bloco ausente".to_string()]);
}

#[test]
fn encoded_block_is_placed_under_the_quota_only() {
    let mut d = Disk::create(DEFAULT_AVG_CHUNK);
    d.v.set_quota(Some(d.v.used_bytes() + 10));
    let mut out = Vec::new();
    assert_eq!(
        d.v.place_block([1; 32], vec![0; 11], 10, &mut out),
        Err(VaultError::QuotaExceeded(d.v.used_bytes() + 10))
    );
    assert!(out.is_empty());
    let at = d.v.used_bytes();
    assert_eq!(d.v.place_block([1; 32], vec![0; 10], 9, &mut out), Ok(()));
    assert_eq!(out[0].offset, at);
    assert_eq!(d.v.used_bytes(), at + 10);
    let b = d.v.block_place(&[1; 32]).unwrap();
    assert_eq!((b.offset, b.len, b.raw_len), (at, 10, 9));

    let mut s = Vault::rekey_to(None).unwrap();
    let w = s.place_block([2; 32], vec![0, 7], 1);
    assert_eq!((w.offset, w.bytes, w.raw_len), (HEADER_SIZE, vec![0, 7], 1));
    assert_eq!(s.next(), HEADER_SIZE + 2);
}

#[test]
fn moving_there_and_back_restores_the_tree() {
    let mut d = Disk::create(DEFAULT_AVG_CHUNK);
    d.write_file("/a/x.txt", b"x", 1).unwrap();
    d.write_file("/a/b/y.txt", b"y", 2).unwrap();
    d.write_file("/f.txt", b"f", 3).unwrap();
    d.v.create_dir("/a").unwrap();
    d.v.create_dir("/a/vazio").unwrap();
    let before = encode(d.v.catalog());
    d.v.rename("/a", "/z/w").unwrap();
    assert_ne!(encode(d.v.catalog()), before);
    d.v.rename("/z/w", "/a").unwrap();
    assert_eq!(encode(d.v.catalog()), before);
    d.v.rename("/f.txt", "/g.txt").unwrap();
    d.v.rename("/g.txt", "/f.txt").unwrap();
    assert_eq!(encode(d.v.catalog()), before);
}

#[test]
fn same_content_fits_under_any_quota() {
    let mut d = Disk::create(DEFAULT_AVG_CHUNK);
    let data = pseudo_random(7, 150_000);
    d.write_file("/a", &data, 1).unwrap();
    d.v.set_quota(Some(1));
    let used = d.v.used_bytes();
    d.write_file("/b", &data, 2).unwrap();
    assert_eq!(d.v.used_bytes(), used);
    assert_eq!(d.extract("/b").unwrap(), data);
    assert_eq!(d.write_file("/c", b"c", 3), Err(VaultError::QuotaExceeded(1)));
}

#[test]
fn compaction_carries_damaged_blocks_along() {
    let mut d = Disk::create(DEFAULT_AVG_CHUNK);
    let data = pseudo_random(9, 300_000);
    d.write_file("/a.bin", &data, 1).unwrap();
    d.write_file("/b.txt", b"b", 2).unwrap();
    d.write_file("/gone", b"gone", 3).unwrap();
    assert!(d.v.remove("/gone"));
    d.commit();
    let hash = d.v.catalog().files.get(&"/a.bin".to_string()).unwrap().chunks[1].hash;
    let at = d.v.block_place(&hash).unwrap().offset as usize;
    d.bytes[at + 100] ^= 0xff;
    let bad = d.verify().blocks_bad;
    assert_eq!(bad, 1);
    let (file, report) = d.compact();
    assert_eq!(report.blocks_after + 1, report.blocks_before);
    let mut packed = Disk::open(&file, None).unwrap();
    assert_eq!(packed.extract("/b.txt").unwrap(), b"b");
    assert_eq!(packed.verify().blocks_bad, 1);
}

#[test]
fn snapshot_outlives_others() {
    let mut d = Disk::create(DEFAULT_AVG_CHUNK);
    d.write_file("/a", b"1", 1).unwrap();
    d.v.snapshot_create("um", 1).unwrap();
    d.write_file("/a", b"2", 2).unwrap();
    d.v.snapshot_create("dois", 2).unwrap();
    assert!(d.v.remove("/a"));
    assert!(d.v.snapshot_delete("dois"));
    d.v.snapshot_restore("um").unwrap();
    assert_eq!(d.extract("/a").unwrap(), b"1");
}

#[test]
fn writes_in_and_out_of_order_lay_over_each_other() {
    let mut d = Disk::create(256);
    let mut w = d.v.stream_writer();
    let first = pseudo_random(4, 6_000);
    d.stream_write(&mut w, 0, &first);
    d.stream_write(&mut w, 6_000, b"fim");
    assert_eq!(w.len(), 6_003);
    d.stream_write(&mut w, 10, b"meio");
    d.stream_write(&mut w, 6_010, b"longe");
    let mut expected = first.clone();
    expected.extend_from_slice(b"fim");
    expected[10..14].copy_from_slice(b"meio");
    expected.resize(6_010, 0);
    expected.extend_from_slice(b"longe");
    assert_eq!(w.len(), 6_015);
    d.finish_write(w, "/s.bin", 1);
    assert_eq!(d.extract("/s.bin").unwrap(), expected);
}

#[test]
fn empty_directory_moves_there_and_back_whatever_its_name() {
    let mut d = Disk::create(DEFAULT_AVG_CHUNK);
    d.write_file("/f.txt", b"f", 1).unwrap();
    d.v.create_dir("/a/").unwrap();
    let before = encode(d.v.catalog());
    d.v.rename("/a/", "/b/").unwrap();
    assert!(d.v.catalog().dirs.contains(&"/b/".to_string()));
    d.v.rename("/b/", "/a/").unwrap();
    assert_eq!(encode(d.v.catalog()), before);
}

#[test]
fn damaged_neighbour_does_not_keep_a_write_from_being_read() {
    let mut d = Disk::create(DEFAULT_AVG_CHUNK);
    d.write_file("/bad", &pseudo_random(2, 5_000), 1).unwrap();
    d.commit();
    let hash = d.v.block_hashes()[0];
    let at = d.v.block_place(&hash).unwrap().offset as usize;
    d.bytes[at + 1] ^= 0xff;
    assert!(!d.verify().is_healthy());
    let data = pseudo_random(8, 100_000);
    d.write_file("/good", &data, 2).unwrap();
    assert_eq!(d.read_range("/good", 0, data.len()).unwrap(), data);
}

#[test]
fn snapshot_reads_the_same_bytes_after_other_calls() {
    let mut d = Disk::create(DEFAULT_AVG_CHUNK);
    let old = pseudo_random(6, 120_000);
    d.write_file("/a/x.bin", &old, 1).unwrap();
    d.v.snapshot_create("s", 2).unwrap();
    d.write_file("/a/x.bin", &pseudo_random(7, 90_000), 3).unwrap();
    d.commit();
    d.v.rename("/a", "/b").unwrap();
    d.v.remove_dir("/b");
    d.write_file("/c", b"c", 4).unwrap();
    d.commit();
    d.v.snapshot_restore("s").unwrap();
    assert_eq!(d.extract("/a/x.bin").unwrap(), old);
    assert!(!d.has_file("/c"));
}
