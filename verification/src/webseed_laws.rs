//! Which servers are asked for data, and which of their answers are taken.

use crate::address::IpAddress;
use crate::location::{url_of, UrlModel};
use crate::error::number_text;
use crate::webseed::{is_public, range_end, response_fault, usable_seeds_of, RangeResponse};
use vstd::prelude::*;
use vstd::utf8::encode_utf8;

verus! {

/// An address of version 4 by its four numbers.
pub open spec fn address_of(a: u8, b: u8, c: u8, d: u8) -> u32 {
    (a * 0x100_0000 + b * 0x1_0000 + c * 0x100 + d) as u32
}

/// The addresses of version 4 that nobody on the public network has.
pub open spec fn is_elsewhere(a: u8, b: u8, c: u8) -> bool {
    ||| a == 0 || a == 10 || a == 127 || a >= 224
    ||| a == 100 && 64 <= b <= 127
    ||| a == 169 && b == 254
    ||| a == 172 && 16 <= b <= 31
    ||| a == 192 && b == 168
    ||| a == 192 && b == 0 && (c == 0 || c == 2)
    ||| a == 198 && (b == 18 || b == 19)
    ||| a == 198 && b == 51 && c == 100
    ||| a == 203 && b == 0 && c == 113
}

/// A server may be asked at a.b.c.d exactly if that is a public address, and it
/// makes no difference whether the address is written in version 6.
pub proof fn law_only_public_v4_addresses(a: u8, b: u8, c: u8, d: u8)
    ensures
        is_public(IpAddress::V4(address_of(a, b, c, d))) == !is_elsewhere(a, b, c),
        is_public(IpAddress::V6((0xffff_0000_0000 + address_of(a, b, c, d)) as u128))
            == !is_elsewhere(a, b, c),
{
}

/// Of the addresses of version 6, the unspecified one, the host itself, and those
/// that begin with fc00 to fdff, fe80 and on, 2001:db8 and 2001:2 are not public;
/// all others are that do not begin with zeros.
pub proof fn law_only_public_v6_addresses(first: u16, second: u16, rest: u128, ip: u128)
    requires
        first > 0,
        rest < 0x1_0000_0000_0000_0000_0000_0000,
        ip == first * 0x1_0000_0000_0000_0000_0000_0000_0000 + second
            * 0x1_0000_0000_0000_0000_0000_0000 + rest,
    ensures
        is_public(IpAddress::V6(ip)) == !{
            ||| 0xfc00 <= first <= 0xfdff
            ||| 0xfe80 <= first
            ||| first == 0x2001 && second == 0x0db8
            ||| first == 0x2001 && second == 2
        },
{
    assert(ip >= 0x1_0000_0000_0000_0000_0000_0000_0000);
    assert(ip / 0x1_0000_0000 > 0xffff);
}

/// The unspecified address and the host itself are not public.
pub proof fn law_host_is_not_public()
    ensures
        !is_public(IpAddress::V6(0)),
        !is_public(IpAddress::V6(1)),
{
}

/// The seeds that can be asked, all of them and in order: those whose URL can be
/// read and is one of the web.
pub open spec fn are_web_urls(urls: Seq<UrlModel>, seeds: Seq<Seq<char>>, kept: Seq<int>) -> bool {
    &&& urls.len() == kept.len()
    &&& forall|i: int|
        0 <= i < kept.len() ==> 0 <= #[trigger] kept[i] < seeds.len() && url_of(seeds[kept[i]])
            == Ok::<UrlModel, Seq<char>>(urls[i]) && (urls[i].scheme == "http"@ || urls[i].scheme
            == "https"@)
    &&& forall|i: int, j: int| 0 <= i < j < kept.len() ==> #[trigger] kept[i] < #[trigger] kept[j]
    &&& forall|k: int|
        0 <= k < seeds.len() && url_of(#[trigger] seeds[k]) is Ok && (url_of(
            seeds[k],
        )->Ok_0.scheme == "http"@ || url_of(seeds[k])->Ok_0.scheme == "https"@) ==> exists|i: int|
            0 <= i < kept.len() && #[trigger] kept[i] == k
}

proof fn lemma_web_urls(seeds: Seq<Seq<char>>) -> (kept: Seq<int>)
    ensures
        are_web_urls(usable_seeds_of(seeds), seeds, kept),
    decreases seeds.len(),
{
    if seeds.len() == 0 {
        Seq::empty()
    } else {
        let before = seeds.drop_last();
        let front = lemma_web_urls(before);
        let last = seeds.len() - 1;
        let usable = url_of(seeds[last]) is Ok && (url_of(seeds[last])->Ok_0.scheme == "http"@
            || url_of(seeds[last])->Ok_0.scheme == "https"@);
        let kept = if usable {
            front.push(last)
        } else {
            front
        };
        let urls = usable_seeds_of(seeds);
        assert forall|i: int| 0 <= i < kept.len() implies 0 <= #[trigger] kept[i] < seeds.len()
            && url_of(seeds[kept[i]]) == Ok::<UrlModel, Seq<char>>(urls[i]) && (urls[i].scheme
            == "http"@ || urls[i].scheme == "https"@) by {
            if i < front.len() {
                assert(kept[i] == front[i]);
                assert(before[front[i]] == seeds[kept[i]]);
            }
        }
        assert forall|k: int|
            0 <= k < seeds.len() && url_of(#[trigger] seeds[k]) is Ok && (url_of(
                seeds[k],
            )->Ok_0.scheme == "http"@ || url_of(seeds[k])->Ok_0.scheme == "https"@) implies exists|
            i: int,
        | 0 <= i < kept.len() && #[trigger] kept[i] == k by {
            if k < last {
                assert(before[k] == seeds[k]);
                let i = choose|i: int| 0 <= i < front.len() && #[trigger] front[i] == k;
                assert(kept[i] == k);
            } else {
                assert(kept[front.len() as int] == k);
            }
        }
        kept
    }
}

/// The seeds that are used are those whose URL can be read and is one of the web,
/// all of them and in the order in which the torrent lists them.
pub proof fn law_usable_seeds_are_the_web_urls(seeds: Seq<Seq<char>>)
    ensures
        exists|kept: Seq<int>| #[trigger] are_web_urls(usable_seeds_of(seeds), seeds, kept),
{
    let kept = lemma_web_urls(seeds);
}

/// A range ends with its last byte: it holds as many bytes as were asked for.
pub proof fn law_range_holds_the_length(offset: u64, length: usize)
    requires
        length > 0,
    ensures
        match range_end(offset as int, length as int) {
            Some(end) => end - offset + 1 == length,
            None => offset + length > u64::MAX,
        },
{
}

/// An answer is taken only if it brings the range that was asked for: a partial
/// one that names exactly that range of that file, or the whole file where the
/// range is all of it; never another length, and never encoded content.
pub proof fn law_taken_answer_is_the_range(
    offset: int,
    end: int,
    length: int,
    file_length: int,
    response: RangeResponse,
)
    requires
        response_fault(offset, end, length, file_length, response) is None,
    ensures
        response.status == 206 || response.status == 200,
        response.status == 200 ==> offset == 0 && length == file_length,
        response.status == 206 ==> response.content_range is Some
            && response.content_range->0@ == "bytes "@ + number_text(offset as nat) + "-"@
            + number_text(end as nat) + "/"@ + number_text(file_length as nat),
        response.content_length is Some ==> response.content_length->0 == length,
        response.content_encoding is Some ==> response.content_encoding->0@ == encode_utf8(
            "identity"@,
        ),
{
}

/// An answer that brings the range as it was asked for, without saying more than
/// it has to, is taken.
pub proof fn law_plain_answer_is_taken(
    offset: int,
    end: int,
    length: int,
    file_length: int,
    response: RangeResponse,
)
    requires
        response.content_encoding is None,
        response.content_length is None || response.content_length->0 == length,
        (response.status == 206 && response.content_range is Some
            && response.content_range->0@ == "bytes "@ + number_text(offset as nat) + "-"@
            + number_text(end as nat) + "/"@ + number_text(file_length as nat)) || (
        response.status == 200 && offset == 0 && length == file_length),
    ensures
        response_fault(offset, end, length, file_length, response) is None,
{
}

} // verus!
