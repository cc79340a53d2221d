//! Which torrents may be worked on side by side, told by their paths.

use crate::claims::{
    conflicts, exclusion_from, first_conflict, partner, payload_paths_of, refusal_from, ClaimModel,
};
use crate::error::{Fault, TorrentId};
use crate::metainfo::{content_of, metainfo_of, FileModel};
use crate::path::lowercase_of;
use crate::path_order::path_key;
use crate::info_dict::limits_for;
use crate::record::TorrentRecord;
use crate::wording::path_text;
use vstd::prelude::*;
use vstd::utf8::encode_utf8;

verus! {

/// Two paths get in each other's way: as far as both go they have the same
/// components, upper and lower case aside, so that they are one path, or one of
/// them is a file where the other needs a directory.
pub open spec fn in_the_way(a: Seq<Seq<char>>, b: Seq<Seq<char>>) -> bool {
    forall|i: int|
        0 <= i < a.len() && i < b.len() ==> encode_utf8(lowercase_of(#[trigger] a[i]))
            == encode_utf8(lowercase_of(b[i]))
}

/// Paths conflict exactly if they get in each other's way.
pub proof fn law_conflict_is_getting_in_the_way(a: Seq<Seq<char>>, b: Seq<Seq<char>>)
    ensures
        conflicts(a, b) == in_the_way(a, b),
{
    let x = path_key(a);
    let y = path_key(b);
    if in_the_way(a, b) {
        if a.len() <= b.len() {
            assert(y.take(x.len() as int) =~= x);
        } else {
            assert(x.take(y.len() as int) =~= y) by {
                assert forall|i: int| 0 <= i < y.len() implies x.take(y.len() as int)[i] == y[i] by {
                    assert(encode_utf8(lowercase_of(a[i])) == encode_utf8(lowercase_of(b[i])));
                }
            }
        }
    }
    if conflicts(a, b) {
        assert forall|i: int| 0 <= i < a.len() && i < b.len() implies encode_utf8(
            lowercase_of(#[trigger] a[i]),
        ) == encode_utf8(lowercase_of(b[i])) by {
            if a.len() <= b.len() && y.take(x.len() as int) == x {
                assert(y.take(x.len() as int)[i] == y[i]);
            } else {
                assert(x.take(y.len() as int)[i] == x[i]);
            }
        }
    }
}

proof fn lemma_partner(path: Seq<Seq<char>>, others: Seq<Seq<Seq<char>>>, from: int)
    requires
        0 <= from <= others.len(),
    ensures
        ({
            let at = partner(path, others, from);
            &&& from <= at <= others.len()
            &&& at < others.len() ==> in_the_way(path, others[at])
            &&& forall|k: int| from <= k < at ==> !in_the_way(path, #[trigger] others[k])
        }),
    decreases others.len() - from,
{
    if from < others.len() {
        law_conflict_is_getting_in_the_way(path, others[from]);
        if !conflicts(path, others[from]) {
            lemma_partner(path, others, from + 1);
        }
    }
}

/// Some path of one list gets in the way of some path of another.
pub open spec fn get_in_the_way(a: Seq<Seq<Seq<char>>>, b: Seq<Seq<Seq<char>>>) -> bool {
    exists|i: int, j: int|
        0 <= i < a.len() && 0 <= j < b.len() && in_the_way(#[trigger] a[i], #[trigger] b[j])
}

proof fn lemma_first_conflict(paths: Seq<Seq<Seq<char>>>, others: Seq<Seq<Seq<char>>>, from: int)
    requires
        0 <= from <= paths.len(),
    ensures
        match first_conflict(paths, others, from) {
            Some((i, j)) => from <= i < paths.len() && 0 <= j < others.len() && in_the_way(
                paths[i],
                others[j],
            ),
            None => forall|i: int, j: int|
                from <= i < paths.len() && 0 <= j < others.len() ==> !in_the_way(
                    #[trigger] paths[i],
                    #[trigger] others[j],
                ),
        },
    decreases paths.len() - from,
{
    if from < paths.len() {
        lemma_partner(paths[from], others, 0);
        lemma_first_conflict(paths, others, from + 1);
    }
}

proof fn lemma_refusal(
    claims: Seq<ClaimModel>,
    owner: TorrentId,
    paths: Seq<Seq<Seq<char>>>,
    from: int,
)
    requires
        0 <= from <= claims.len(),
    ensures
        match refusal_from(claims, owner, paths, from) {
            Some(fault) => exists|k: int, i: int, j: int|
                #![trigger claims[k], paths[i], claims[k].paths[j]]
                from <= k < claims.len() && claims[k].owner != owner && 0 <= i < paths.len() && 0
                    <= j < claims[k].paths.len() && in_the_way(paths[i], claims[k].paths[j])
                    && fault == (Fault::PathConflict {
                    path: path_text(paths[i]),
                    owner: claims[k].owner,
                }),
            None => forall|k: int|
                from <= k < claims.len() && (#[trigger] claims[k]).owner != owner
                    ==> !get_in_the_way(paths, claims[k].paths),
        },
    decreases claims.len() - from,
{
    if from < claims.len() {
        lemma_refusal(claims, owner, paths, from + 1);
        lemma_first_conflict(paths, claims[from].paths, 0);
        if claims[from].owner != owner {
            match first_conflict(paths, claims[from].paths, 0) {
                Some((i, j)) => {
                    assert(in_the_way(paths[i], claims[from].paths[j]));
                },
                None => {
                    assert(!get_in_the_way(paths, claims[from].paths));
                },
            }
        }
        if refusal_from(claims, owner, paths, from + 1) is Some && (claims[from].owner == owner
            || first_conflict(paths, claims[from].paths, 0) is None) {
            let fault = refusal_from(claims, owner, paths, from + 1)->0;
            let (k, i, j) = choose|k: int, i: int, j: int|
                #![trigger claims[k], paths[i], claims[k].paths[j]]
                from + 1 <= k < claims.len() && claims[k].owner != owner && 0 <= i < paths.len()
                    && 0 <= j < claims[k].paths.len() && in_the_way(paths[i], claims[k].paths[j])
                    && fault == (Fault::PathConflict {
                    path: path_text(paths[i]),
                    owner: claims[k].owner,
                });
            assert(in_the_way(paths[i], claims[k].paths[j]));
        }
    }
}

/// Paths are refused exactly if one of them gets in the way of a path that
/// another torrent has claimed; a torrent never stands in its own way.
pub proof fn law_paths_are_refused_if_in_the_way(
    claims: Seq<ClaimModel>,
    owner: TorrentId,
    paths: Seq<Seq<Seq<char>>>,
)
    ensures
        refusal_from(claims, owner, paths, 0) is Some <==> exists|k: int|
            0 <= k < claims.len() && (#[trigger] claims[k]).owner != owner && get_in_the_way(
                paths,
                claims[k].paths,
            ),
{
    lemma_refusal(claims, owner, paths, 0);
    if refusal_from(claims, owner, paths, 0) is Some {
        let fault = refusal_from(claims, owner, paths, 0)->0;
        let (k, i, j) = choose|k: int, i: int, j: int|
            #![trigger claims[k], paths[i], claims[k].paths[j]]
            0 <= k < claims.len() && claims[k].owner != owner && 0 <= i < paths.len() && 0 <= j
                < claims[k].paths.len() && in_the_way(paths[i], claims[k].paths[j]) && fault == (
            Fault::PathConflict { path: path_text(paths[i]), owner: claims[k].owner });
        assert(get_in_the_way(paths, claims[k].paths)) by {
            assert(in_the_way(paths[i], claims[k].paths[j]));
        }
    }
}

/// The files with content are those that are not padding, in order.
pub proof fn law_content_is_without_padding(files: Seq<FileModel>)
    ensures
        content_of(files) == files.filter(|file: FileModel| !file.padding),
    decreases files.len(),
{
    reveal(Seq::filter);
    if files.len() > 0 {
        law_content_is_without_padding(files.drop_last());
    }
}

/// Another torrent stands in the way of one: it is on record with a document that
/// can be read, came no later, by its time or else by its number, and has a file
/// in the way of one of the paths.
pub open spec fn stands_in_the_way(
    other: TorrentRecord,
    record: TorrentRecord,
    paths: Seq<Seq<Seq<char>>>,
    limit: usize,
) -> bool {
    let theirs = metainfo_of(other.raw_metainfo@, limits_for(limit), true);
    &&& other.id != record.id
    &&& other.raw_metainfo@.len() > 0
    &&& other.added_at_unix_ms < record.added_at_unix_ms || (other.added_at_unix_ms
        == record.added_at_unix_ms && other.id.value <= record.id.value)
    &&& theirs is Ok
    &&& get_in_the_way(
        paths,
        theirs->Ok_0.files.filter(|file: FileModel| !file.padding).map_values(
            |file: FileModel| file.path,
        ),
    )
}

/// A torrent may not be worked on exactly if another that came no later stands in
/// its way.
pub proof fn law_first_come_first_served(
    record: TorrentRecord,
    paths: Seq<Seq<Seq<char>>>,
    others: Seq<TorrentRecord>,
    limit: usize,
)
    ensures
        exclusion_from(record, paths, others, limit, 0) is Some <==> exists|k: int|
            0 <= k < others.len() && stands_in_the_way(
                #[trigger] others[k],
                record,
                paths,
                limit,
            ),
{
    lemma_exclusion(record, paths, others, limit, 0);
}

proof fn lemma_exclusion(
    record: TorrentRecord,
    paths: Seq<Seq<Seq<char>>>,
    others: Seq<TorrentRecord>,
    limit: usize,
    from: int,
)
    requires
        0 <= from <= others.len(),
    ensures
        exclusion_from(record, paths, others, limit, from) is Some <==> exists|k: int|
            from <= k < others.len() && stands_in_the_way(
                #[trigger] others[k],
                record,
                paths,
                limit,
            ),
    decreases others.len() - from,
{
    if from < others.len() {
        lemma_exclusion(record, paths, others, limit, from + 1);
        let other = others[from];
        let theirs = metainfo_of(other.raw_metainfo@, limits_for(limit), true);
        if theirs is Ok {
            let files = theirs->Ok_0.files;
            law_content_is_without_padding(files);
            let names = files.filter(|file: FileModel| !file.padding).map_values(
                |file: FileModel| file.path,
            );
            assert(payload_paths_of(files) =~= names);
            lemma_first_conflict(paths, names, 0);
            assert(first_conflict(paths, names, 0) is Some == get_in_the_way(paths, names)) by {
                match first_conflict(paths, names, 0) {
                    Some((i, j)) => {
                        assert(in_the_way(paths[i], names[j]));
                    },
                    None => {},
                }
            }
        }
        if stands_in_the_way(other, record, paths, limit) {
            assert(stands_in_the_way(others[from], record, paths, limit));
        } else if exists|k: int|
            from <= k < others.len() && stands_in_the_way(
                #[trigger] others[k],
                record,
                paths,
                limit,
            ) {
            let k = choose|k: int|
                from <= k < others.len() && stands_in_the_way(
                    #[trigger] others[k],
                    record,
                    paths,
                    limit,
                );
            assert(k != from);
        }
    }
}

} // verus!
