//! Which torrent owns which paths on disk. Two torrents never write to the same
//! file, nor one to a file where the other has a directory; letter case is
//! ignored, as some filesystems do.

use crate::error::{ActorError, Fault, TorrentId};
use crate::info_dict::{document_limits, limits_for};
use crate::metainfo::{
    content_of, file_paths, files_view, metainfo_of, FileEntry, FileModel, Metainfo,
};
use crate::path::TorrentPath;
use crate::path_order::{is_key_prefix, key_of, key_prefix, path_key};
use crate::record::TorrentRecord;
use crate::wording::path_text;
use vstd::prelude::*;

verus! {

/// Whether two paths cannot both be written: they are the same, or one is a
/// directory of the other.
pub open spec fn conflicts(a: Seq<Seq<char>>, b: Seq<Seq<char>>) -> bool {
    key_prefix(path_key(a), path_key(b)) || key_prefix(path_key(b), path_key(a))
}

pub fn payload_paths_conflict(left: &TorrentPath, right: &TorrentPath) -> (result: bool)
    ensures
        result == conflicts(left@, right@),
{
    let a = key_of(left);
    let b = key_of(right);
    is_key_prefix(&a, &b) || is_key_prefix(&b, &a)
}

/// The position of the first path at or after `from` that a path conflicts
/// with, or the length.
pub open spec fn partner(path: Seq<Seq<char>>, others: Seq<Seq<Seq<char>>>, from: int) -> int
    decreases others.len() - from,
{
    if from < 0 || from >= others.len() || conflicts(path, others[from]) {
        from
    } else {
        partner(path, others, from + 1)
    }
}

/// The first path at or after `from` that conflicts with another torrent's
/// paths, and the first of those that it conflicts with.
pub open spec fn first_conflict(
    paths: Seq<Seq<Seq<char>>>,
    others: Seq<Seq<Seq<char>>>,
    from: int,
) -> Option<(int, int)>
    decreases paths.len() - from,
{
    if from < 0 || from >= paths.len() {
        None
    } else {
        let found = partner(paths[from], others, 0);
        if found < others.len() {
            Some((from, found))
        } else {
            first_conflict(paths, others, from + 1)
        }
    }
}

pub open spec fn owned_views(paths: Seq<TorrentPath>) -> Seq<Seq<Seq<char>>> {
    Seq::new(paths.len(), |i: int| paths[i]@)
}

fn find_conflict(paths: &Vec<TorrentPath>, others: &Vec<TorrentPath>) -> (result: Option<
    (usize, usize),
>)
    ensures
        match result {
            Some((i, j)) => {
                &&& i < paths@.len() && j < others@.len()
                &&& first_conflict(owned_views(paths@), owned_views(others@), 0) == Some(
                    (i as int, j as int),
                )
            },
            None => first_conflict(owned_views(paths@), owned_views(others@), 0) is None,
        },
{
    let ghost own = owned_views(paths@);
    let ghost theirs = owned_views(others@);
    let mut i: usize = 0;
    while i < paths.len()
        invariant
            own == owned_views(paths@),
            theirs == owned_views(others@),
            i <= paths@.len(),
            first_conflict(own, theirs, 0) == first_conflict(own, theirs, i as int),
        decreases paths@.len() - i,
    {
        let mut j: usize = 0;
        while j < others.len()
            invariant
                own == owned_views(paths@),
                theirs == owned_views(others@),
                i < paths@.len(),
                j <= others@.len(),
                first_conflict(own, theirs, 0) == first_conflict(own, theirs, i as int),
                partner(own[i as int], theirs, 0) == partner(own[i as int], theirs, j as int),
            decreases others@.len() - j,
        {
            if payload_paths_conflict(&paths[i], &others[j]) {
                return Some((i, j));
            }
            j += 1;
        }
        i += 1;
    }
    None
}

/// The paths of a torrent's files, without those that are only padding.
pub open spec fn payload_paths_of(files: Seq<FileModel>) -> Seq<Seq<Seq<char>>> {
    file_paths(content_of(files))
}

fn payload_paths(files: &Vec<FileEntry>) -> (paths: Vec<TorrentPath>)
    ensures
        owned_views(paths@) == payload_paths_of(files_view(files@)),
{
    let ghost models = files_view(files@);
    let mut paths: Vec<TorrentPath> = Vec::new();
    let mut i: usize = 0;
    assert(models.take(0) =~= Seq::empty());
    assert(owned_views(paths@) =~= payload_paths_of(models.take(0)));
    while i < files.len()
        invariant
            models == files_view(files@),
            i <= files@.len(),
            owned_views(paths@) == payload_paths_of(models.take(i as int)),
        decreases files@.len() - i,
    {
        let ghost before = owned_views(paths@);
        proof {
            assert(models.take(i + 1).drop_last() =~= models.take(i as int));
            assert(models.take(i + 1).last() == files@[i as int]@);
        }
        if !files[i].padding {
            paths.push(files[i].path.clone());
            assert(owned_views(paths@) =~= before.push(files@[i as int].path@));
        }
        assert(owned_views(paths@) =~= payload_paths_of(models.take(i + 1)));
        i += 1;
    }
    assert(models.take(models.len() as int) =~= models);
    paths
}

/// The paths that a torrent at work owns.
#[derive(Debug)]
pub struct PayloadClaim {
    pub owner: TorrentId,
    pub paths: Vec<TorrentPath>,
}

/// A claim by its values.
pub struct ClaimModel {
    pub owner: TorrentId,
    pub paths: Seq<Seq<Seq<char>>>,
}

impl PayloadClaim {
    pub open spec fn view(&self) -> ClaimModel {
        ClaimModel { owner: self.owner, paths: owned_views(self.paths@) }
    }
}

pub open spec fn claims_view(claims: Seq<PayloadClaim>) -> Seq<ClaimModel> {
    Seq::new(claims.len(), |i: int| claims[i]@)
}

/// Whether no path of one list conflicts with a path of the other.
pub open spec fn apart(a: Seq<Seq<Seq<char>>>, b: Seq<Seq<Seq<char>>>) -> bool {
    forall|i: int, j: int|
        0 <= i < a.len() && 0 <= j < b.len() ==> !#[trigger] conflicts(a[i], b[j])
}

/// Whether every torrent has one claim, and no two claims conflict.
pub open spec fn claims_apart(claims: Seq<ClaimModel>) -> bool {
    forall|i: int, j: int|
        0 <= i < claims.len() && 0 <= j < claims.len() && i != j ==> (
        #[trigger] claims[i]).owner != (#[trigger] claims[j]).owner && apart(
            claims[i].paths,
            claims[j].paths,
        )
}

/// The position of a torrent's claim at or after `from`, or the length.
pub open spec fn claim_at(claims: Seq<ClaimModel>, owner: TorrentId, from: int) -> int
    decreases claims.len() - from,
{
    if from < 0 || from >= claims.len() || claims[from].owner == owner {
        from
    } else {
        claim_at(claims, owner, from + 1)
    }
}

pub open spec fn without_claim(claims: Seq<ClaimModel>, owner: TorrentId) -> Seq<ClaimModel> {
    let at = claim_at(claims, owner, 0);
    if at < claims.len() {
        claims.remove(at)
    } else {
        claims
    }
}

/// Why paths cannot be claimed, if they cannot: another torrent's claim
/// conflicts with one of them.
pub open spec fn refusal_from(
    claims: Seq<ClaimModel>,
    owner: TorrentId,
    paths: Seq<Seq<Seq<char>>>,
    from: int,
) -> Option<Fault>
    decreases claims.len() - from,
{
    if from < 0 || from >= claims.len() {
        None
    } else if claims[from].owner == owner {
        refusal_from(claims, owner, paths, from + 1)
    } else {
        match first_conflict(paths, claims[from].paths, 0) {
            Some((i, j)) => Some(
                Fault::PathConflict { path: path_text(paths[i]), owner: claims[from].owner },
            ),
            None => refusal_from(claims, owner, paths, from + 1),
        }
    }
}

/// The paths of all torrents at work.
#[derive(Debug)]
pub struct PayloadClaims {
    pub claims: Vec<PayloadClaim>,
}

impl PayloadClaims {
    pub open spec fn view(&self) -> Seq<ClaimModel> {
        claims_view(self.claims@)
    }

    /// No two torrents own conflicting paths.
    pub open spec fn wf(&self) -> bool {
        claims_apart(self@)
    }

    pub fn new() -> (claims: Self)
        ensures
            claims.wf(),
            claims@.len() == 0,
    {
        Self { claims: Vec::new() }
    }

    fn find(&self, owner: TorrentId) -> (result: Option<usize>)
        ensures
            match result {
                Some(at) => at < self@.len() && at == claim_at(self@, owner, 0)
                    && self@[at as int].owner == owner,
                None => claim_at(self@, owner, 0) == self@.len(),
            },
    {
        let ghost models = self@;
        let mut i: usize = 0;
        while i < self.claims.len()
            invariant
                models == claims_view(self.claims@),
                i <= models.len(),
                claim_at(models, owner, 0) == claim_at(models, owner, i as int),
            decreases models.len() - i,
        {
            assert(models[i as int].owner == self.claims@[i as int].owner);
            if self.claims[i].owner == owner {
                return Some(i);
            }
            i += 1;
        }
        None
    }

    /// A torrent claims the paths of its files. Nothing changes where another
    /// torrent owns one of them.
    pub fn claim(&mut self, owner: TorrentId, metainfo: &Metainfo) -> (result: Result<
        (),
        ActorError,
    >)
        requires
            old(self).wf(),
        ensures
            final(self).wf(),
            ({
                let paths = payload_paths_of(metainfo@.files);
                match result {
                    Ok(_) => {
                        &&& refusal_from(old(self)@, owner, paths, 0) is None
                        &&& final(self)@ == without_claim(old(self)@, owner).push(
                            ClaimModel { owner, paths },
                        )
                    },
                    Err(error) => {
                        &&& refusal_from(old(self)@, owner, paths, 0) == Some(error@)
                        &&& final(self)@ == old(self)@
                    },
                }
            }),
    {
        let ghost models = self@;
        let paths = payload_paths(&metainfo.files);
        let ghost views = payload_paths_of(metainfo@.files);
        let mut i: usize = 0;
        while i < self.claims.len()
            invariant
                self.wf(),
                self@ == old(self)@,
                models == self@,
                views == owned_views(paths@),
                views == payload_paths_of(metainfo@.files),
                i <= models.len(),
                refusal_from(models, owner, views, 0) == refusal_from(
                    models,
                    owner,
                    views,
                    i as int,
                ),
            decreases models.len() - i,
        {
            assert(models[i as int] == self.claims@[i as int]@);
            let other: TorrentId = self.claims[i].owner;
            if other != owner {
                if let Some((at, _)) = find_conflict(&paths, &self.claims[i].paths) {
                    return Err(
                        ActorError::PathConflict { path: paths[at].to_text(), owner: other },
                    );
                }
            }
            i += 1;
        }
        self.release(owner);
        self.claims.push(PayloadClaim { owner, paths });
        proof {
            let rest = without_claim(models, owner);
            assert(self@ =~= rest.push(ClaimModel { owner, paths: views }));
            lemma_claim_keeps_apart(models, owner, views);
        }
        Ok(())
    }

    /// A torrent gives up its paths.
    pub fn release(&mut self, owner: TorrentId)
        requires
            old(self).wf(),
        ensures
            final(self).wf(),
            final(self)@ == without_claim(old(self)@, owner),
    {
        if let Some(at) = self.find(owner) {
            self.claims.remove(at);
            assert(self@ =~= old(self)@.remove(at as int));
        }
    }
}

proof fn lemma_partner_none(path: Seq<Seq<char>>, others: Seq<Seq<Seq<char>>>, from: int)
    requires
        0 <= from <= others.len(),
        partner(path, others, from) >= others.len(),
    ensures
        forall|j: int| from <= j < others.len() ==> !#[trigger] conflicts(path, others[j]),
    decreases others.len() - from,
{
    if from < others.len() {
        lemma_partner_none(path, others, from + 1);
    }
}

proof fn lemma_no_conflict(paths: Seq<Seq<Seq<char>>>, others: Seq<Seq<Seq<char>>>, from: int)
    requires
        0 <= from <= paths.len(),
        first_conflict(paths, others, from) is None,
    ensures
        forall|i: int, j: int|
            from <= i < paths.len() && 0 <= j < others.len() ==> !#[trigger] conflicts(
                paths[i],
                others[j],
            ),
    decreases paths.len() - from,
{
    if from < paths.len() {
        lemma_partner_none(paths[from], others, 0);
        lemma_no_conflict(paths, others, from + 1);
    }
}

proof fn lemma_no_refusal(
    claims: Seq<ClaimModel>,
    owner: TorrentId,
    paths: Seq<Seq<Seq<char>>>,
    from: int,
)
    requires
        0 <= from <= claims.len(),
        refusal_from(claims, owner, paths, from) is None,
    ensures
        forall|k: int|
            from <= k < claims.len() && (#[trigger] claims[k]).owner != owner ==> apart(
                paths,
                claims[k].paths,
            ),
    decreases claims.len() - from,
{
    if from < claims.len() {
        lemma_no_refusal(claims, owner, paths, from + 1);
        if claims[from].owner != owner {
            lemma_no_conflict(paths, claims[from].paths, 0);
        }
    }
}

proof fn lemma_claim_at(claims: Seq<ClaimModel>, owner: TorrentId, from: int)
    requires
        0 <= from <= claims.len(),
    ensures
        from <= claim_at(claims, owner, from) <= claims.len(),
        claim_at(claims, owner, from) < claims.len() ==> claims[claim_at(
            claims,
            owner,
            from,
        )].owner == owner,
        claim_at(claims, owner, from) == claims.len() ==> forall|i: int|
            from <= i < claims.len() ==> (#[trigger] claims[i]).owner != owner,
    decreases claims.len() - from,
{
    if from < claims.len() && claims[from].owner != owner {
        lemma_claim_at(claims, owner, from + 1);
    }
}

/// Whatever a torrent may claim, no two torrents own conflicting paths
/// afterwards.
proof fn lemma_claim_keeps_apart(
    claims: Seq<ClaimModel>,
    owner: TorrentId,
    paths: Seq<Seq<Seq<char>>>,
)
    requires
        claims_apart(claims),
        refusal_from(claims, owner, paths, 0) is None,
    ensures
        claims_apart(without_claim(claims, owner).push(ClaimModel { owner, paths })),
{
    lemma_claim_at(claims, owner, 0);
    lemma_no_refusal(claims, owner, paths, 0);
    let rest = without_claim(claims, owner);
    let at = claim_at(claims, owner, 0);
    let after = rest.push(ClaimModel { owner, paths });
    assert forall|k: int| 0 <= k < rest.len() implies (#[trigger] rest[k]).owner != owner && apart(
        paths,
        rest[k].paths,
    ) && apart(rest[k].paths, paths) by {
        let source = if at < claims.len() && k >= at {
            k + 1
        } else {
            k
        };
        assert(rest[k] == claims[source]);
        assert(claims[source].owner != owner) by {
            if at < claims.len() {
                assert(claims[at].owner != claims[source].owner);
            }
        }
        assert(apart(paths, claims[source].paths));
        assert forall|i: int, j: int|
            0 <= i < rest[k].paths.len() && 0 <= j < paths.len() implies !#[trigger] conflicts(
            rest[k].paths[i],
            paths[j],
        ) by {
            assert(!conflicts(paths[j], rest[k].paths[i]));
        }
    }
    assert(claims_apart(rest));
}

/// Who comes first where two torrents want the same path: whoever was added
/// earlier, and among those added together the one with the smaller number.
pub open spec fn comes_later(
    added: u64,
    id: TorrentId,
    other_added: u64,
    other: TorrentId,
) -> bool {
    other_added > added || (other_added == added && other.value > id.value)
}

/// Why a torrent may not be worked on, if it may not: a torrent that came
/// before it has a path that conflicts with one of its own.
pub open spec fn exclusion_from(
    record: TorrentRecord,
    paths: Seq<Seq<Seq<char>>>,
    others: Seq<TorrentRecord>,
    limit: usize,
    from: int,
) -> Option<Fault>
    decreases others.len() - from,
{
    if from < 0 || from >= others.len() {
        None
    } else {
        let other = others[from];
        let rest = exclusion_from(record, paths, others, limit, from + 1);
        if other.id == record.id || other.raw_metainfo@.len() == 0 || comes_later(
            record.added_at_unix_ms,
            record.id,
            other.added_at_unix_ms,
            other.id,
        ) {
            rest
        } else {
            match metainfo_of(other.raw_metainfo@, limits_for(limit), true) {
                Err(_) => rest,
                Ok(m) => match first_conflict(paths, payload_paths_of(m.files), 0) {
                    Some((i, j)) => Some(
                        Fault::PathConflict {
                            path: path_text(payload_paths_of(m.files)[j]),
                            owner: other.id,
                        },
                    ),
                    None => rest,
                },
            }
        }
    }
}

/// Whether a torrent may be worked on beside the other torrents on record.
/// Records that cannot be read stand in nobody's way.
pub fn ensure_exclusive_payload_paths(
    record: &TorrentRecord,
    metainfo: &Metainfo,
    others: &Vec<TorrentRecord>,
    limit: usize,
) -> (result: Result<(), ActorError>)
    ensures
        ({
            let refusal = exclusion_from(
                *record,
                payload_paths_of(metainfo@.files),
                others@,
                limit,
                0,
            );
            match result {
                Ok(_) => refusal is None,
                Err(error) => refusal == Some(error@),
            }
        }),
{
    let paths = payload_paths(&metainfo.files);
    let ghost views = payload_paths_of(metainfo@.files);
    let mut i: usize = 0;
    while i < others.len()
        invariant
            views == owned_views(paths@),
            views == payload_paths_of(metainfo@.files),
            i <= others@.len(),
            exclusion_from(*record, views, others@, limit, 0) == exclusion_from(
                *record,
                views,
                others@,
                limit,
                i as int,
            ),
        decreases others@.len() - i,
    {
        let other = &others[i];
        let later: bool = other.added_at_unix_ms > record.added_at_unix_ms || (
        other.added_at_unix_ms == record.added_at_unix_ms && other.id.value > record.id.value);
        if other.id != record.id && other.raw_metainfo.len() > 0 && !later {
            if let Ok(parsed) = Metainfo::parse(
                other.raw_metainfo.as_slice(),
                document_limits(limit),
            ) {
                let theirs = payload_paths(&parsed.files);
                if let Some((_, j)) = find_conflict(&paths, &theirs) {
                    return Err(
                        ActorError::PathConflict { path: theirs[j].to_text(), owner: other.id },
                    );
                }
            }
        }
        i += 1;
    }
    Ok(())
}

/// Conflicts go both ways, and a path conflicts with itself.
pub proof fn law_conflicts_are_mutual(a: Seq<Seq<char>>, b: Seq<Seq<char>>)
    ensures
        conflicts(a, b) == conflicts(b, a),
        conflicts(a, a),
{
    assert(path_key(a).take(path_key(a).len() as int) =~= path_key(a));
}

proof fn lemma_excluded(
    record: TorrentRecord,
    paths: Seq<Seq<Seq<char>>>,
    others: Seq<TorrentRecord>,
    limit: usize,
    from: int,
    k: int,
)
    requires
        0 <= from <= k < others.len(),
        exclusion_from(record, paths, others, limit, k) is Some,
    ensures
        exclusion_from(record, paths, others, limit, from) is Some,
    decreases k - from,
{
    if from < k {
        lemma_excluded(record, paths, others, limit, from + 1, k);
    }
}

/// A torrent that conflicts with one that came before it is refused, whatever
/// other torrents are on record.
pub proof fn law_later_torrent_gives_way(
    record: TorrentRecord,
    files: Seq<FileModel>,
    others: Seq<TorrentRecord>,
    limit: usize,
    k: int,
    i: int,
    j: int,
)
    requires
        0 <= k < others.len(),
        others[k].id != record.id,
        others[k].raw_metainfo@.len() > 0,
        !comes_later(
            record.added_at_unix_ms,
            record.id,
            others[k].added_at_unix_ms,
            others[k].id,
        ),
        metainfo_of(others[k].raw_metainfo@, limits_for(limit), true) is Ok,
        ({
            let theirs = payload_paths_of(
                metainfo_of(others[k].raw_metainfo@, limits_for(limit), true)->Ok_0.files,
            );
            &&& 0 <= i < payload_paths_of(files).len()
            &&& 0 <= j < theirs.len()
            &&& conflicts(payload_paths_of(files)[i], theirs[j])
        }),
    ensures
        exclusion_from(record, payload_paths_of(files), others, limit, 0) is Some,
{
    let paths = payload_paths_of(files);
    let theirs = payload_paths_of(
        metainfo_of(others[k].raw_metainfo@, limits_for(limit), true)->Ok_0.files,
    );
    if first_conflict(paths, theirs, 0) is None {
        lemma_no_conflict(paths, theirs, 0);
    }
    lemma_excluded(record, paths, others, limit, 0, k);
}

} // verus!
