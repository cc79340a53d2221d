//! Downloading from web servers: which addresses may be contacted, where the
//! files of a torrent lie, and which answers are acceptable.

use crate::address::IpAddress;
use crate::bencode::bytes_equal;
use crate::discovery::urls_view;
use crate::error::{fault_text, join, number, number_text, ActorError, Fault};
use crate::layout::{segments_view, FileSegment};
use crate::location::{
    extend_url, extended_url_of, parse_url, texts_size, url_of, UrlModel, UrlParts,
};
use crate::metainfo::{content_of, files_view, FileEntry, FileModel, Metainfo};
use crate::path::texts;
use crate::piece_io::{assemble_piece, parts_view, piece_from};
use vstd::prelude::*;
use vstd::string::{StrSliceExecFns, StringExecFns};
use vstd::utf8::encode_utf8;

verus! {

/// Whether an address lies in the block of `size` addresses from `base` on.
pub open spec fn in_block(ip: int, base: int, size: int) -> bool {
    base <= ip < base + size
}

/// The blocks of IPv4 addresses that are not public: this network, private
/// networks, loopback, shared and link-local ranges, protocol assignments,
/// documentation, benchmarks, multicast and what is reserved beyond.
pub open spec fn reserved_v4(ip: int) -> bool {
    ||| in_block(ip, 0x0000_0000, 0x0100_0000)
    ||| in_block(ip, 0x0a00_0000, 0x0100_0000)
    ||| in_block(ip, 0x7f00_0000, 0x0100_0000)
    ||| in_block(ip, 0x6440_0000, 0x0040_0000)
    ||| in_block(ip, 0xa9fe_0000, 0x0001_0000)
    ||| in_block(ip, 0xac10_0000, 0x0010_0000)
    ||| in_block(ip, 0xc000_0000, 0x0000_0100)
    ||| in_block(ip, 0xc000_0200, 0x0000_0100)
    ||| in_block(ip, 0xc0a8_0000, 0x0001_0000)
    ||| in_block(ip, 0xc612_0000, 0x0002_0000)
    ||| in_block(ip, 0xc633_6400, 0x0000_0100)
    ||| in_block(ip, 0xcb00_7100, 0x0000_0100)
    ||| ip >= 0xe000_0000
}

/// The IPv4 address inside a mapped IPv6 address.
pub open spec fn mapped_v4(ip: int) -> Option<int> {
    if ip / 0x1_0000_0000 == 0xffff {
        Some(ip % 0x1_0000_0000)
    } else {
        None
    }
}

/// The blocks of IPv6 addresses that are not public: unspecified and loopback,
/// unique-local, link-local, site-local, multicast, documentation and
/// benchmarks.
pub open spec fn reserved_v6(ip: int) -> bool {
    ||| ip == 0
    ||| ip == 1
    ||| in_block(ip, 0xfc00_0000_0000_0000_0000_0000_0000_0000, 0x0200_0000_0000_0000_0000_0000_0000_0000)
    ||| in_block(ip, 0xfe80_0000_0000_0000_0000_0000_0000_0000, 0x0040_0000_0000_0000_0000_0000_0000_0000)
    ||| in_block(ip, 0xfec0_0000_0000_0000_0000_0000_0000_0000, 0x0040_0000_0000_0000_0000_0000_0000_0000)
    ||| in_block(ip, 0xff00_0000_0000_0000_0000_0000_0000_0000, 0x0100_0000_0000_0000_0000_0000_0000_0000)
    ||| in_block(ip, 0x2001_0db8_0000_0000_0000_0000_0000_0000, 0x0000_0001_0000_0000_0000_0000_0000_0000)
    ||| in_block(ip, 0x2001_0002_0000_0000_0000_0000_0000_0000, 0x0000_0001_0000_0000_0000_0000_0000_0000)
}

/// Whether an address may be contacted on behalf of a torrent.
pub open spec fn is_public(ip: IpAddress) -> bool {
    match ip {
        IpAddress::V4(ip) => !reserved_v4(ip as int),
        IpAddress::V6(ip) => match mapped_v4(ip as int) {
            Some(mapped) => !reserved_v4(mapped),
            None => !reserved_v6(ip as int),
        },
    }
}

fn public_web_seed_ipv4(ip: u32) -> (result: bool)
    ensures
        result == !reserved_v4(ip as int),
{
    let first: u32 = ip / 0x100_0000;
    let second: u32 = ip / 0x1_0000 % 0x100;
    let third: u32 = ip / 0x100 % 0x100;
    proof {
        let fourth = ip % 0x100;
        assert(ip == first * 0x100_0000 + second * 0x1_0000 + third * 0x100 + fourth);
    }
    !(first == 0 || first == 10 || first == 127 || (first == 100 && 64 <= second && second <= 127)
        || (first == 169 && second == 254) || (first == 172 && 16 <= second && second <= 31) || (
    first == 192 && second == 0 && third == 0) || (first == 192 && second == 0 && third == 2) || (
    first == 192 && second == 168) || (first == 198 && (second == 18 || second == 19)) || (first
        == 198 && second == 51 && third == 100) || (first == 203 && second == 0 && third == 113)
        || first >= 224)
}

/// Whether an address may be contacted on behalf of a torrent.
pub fn public_web_seed_ip(ip: IpAddress) -> (result: bool)
    ensures
        result == is_public(ip),
{
    match ip {
        IpAddress::V4(ip) => public_web_seed_ipv4(ip),
        IpAddress::V6(ip) => {
            if ip / 0x1_0000_0000 == 0xffff {
                return public_web_seed_ipv4((ip % 0x1_0000_0000) as u32);
            }
            let top: u128 = ip / 0x0001_0000_0000_0000_0000_0000_0000_0000;
            let head: u128 = ip / 0x0000_0001_0000_0000_0000_0000_0000_0000;
            !(ip <= 1 || (0xfc00 <= top && top <= 0xfdff) || (0xfe80 <= top && top <= 0xfeff)
                || top >= 0xff00 || head == 0x2001_0db8 || head == 0x2001_0002)
        },
    }
}

/// Whether an address that a server's name stands for keeps the server from
/// being contacted.
pub open spec fn some_reserved(addresses: Seq<IpAddress>) -> bool {
    exists|i: int| 0 <= i < addresses.len() && !is_public(#[trigger] addresses[i])
}

/// Checks every address that a server's name stands for: one that is not
/// public is enough to refuse the server.
pub fn check_web_seed_addresses(addresses: &Vec<IpAddress>) -> (result: Result<(), ActorError>)
    ensures
        match result {
            Ok(()) => addresses@.len() > 0 && !some_reserved(addresses@),
            Err(error) => if addresses@.len() == 0 {
                error@ == Fault::WebSeed("web seed DNS returned no addresses"@)
            } else {
                some_reserved(addresses@) && error@ == Fault::WebSeed(
                    "web seed resolved to a private, local, or multicast address"@,
                )
            },
        },
{
    if addresses.len() == 0 {
        return Err(ActorError::web_seed("web seed DNS returned no addresses"));
    }
    let mut i: usize = 0;
    while i < addresses.len()
        invariant
            addresses@.len() > 0,
            i <= addresses@.len(),
            forall|k: int| 0 <= k < i ==> is_public(#[trigger] addresses@[k]),
        decreases addresses@.len() - i,
    {
        if !public_web_seed_ip(addresses[i]) {
            return Err(
                ActorError::web_seed("web seed resolved to a private, local, or multicast address"),
            );
        }
        i += 1;
    }
    Ok(())
}

/// The host and port of a web seed.
pub fn web_seed_endpoint(seed: &UrlParts) -> (result: Result<(String, u16), ActorError>)
    ensures
        match result {
            Ok((host, port)) => seed@.host == Some(host@) && seed@.port == Some(port),
            Err(error) => if seed@.host is None {
                error@ == Fault::WebSeed("web seed URL has no host"@)
            } else {
                seed@.port is None && error@ == Fault::WebSeed("web seed URL has no usable port"@)
            },
        },
{
    match &seed.host {
        None => Err(ActorError::web_seed("web seed URL has no host")),
        Some(host) => match seed.port {
            None => Err(ActorError::web_seed("web seed URL has no usable port")),
            Some(port) => Ok((host.clone(), port)),
        },
    }
}

pub open spec fn ends_with_slash(path: Seq<char>) -> bool {
    path.len() > 0 && path.last() == '/'
}

/// Where a server keeps a file: at the seed's own URL for the only file of a
/// torrent, else below it.
pub open spec fn file_url_of(
    seed: UrlModel,
    files: Seq<FileModel>,
    path: Seq<Seq<char>>,
) -> Result<Seq<char>, Fault> {
    if ends_with_slash(seed.path) {
        match extended_url_of(seed.text, path) {
            Some(url) => Ok(url),
            None => Err(Fault::WebSeed("web seed URL cannot contain paths"@)),
        }
    } else if content_of(files).len() == 1 {
        Ok(seed.text)
    } else {
        Err(Fault::WebSeed("multi-file web seed URL must end with '/'"@))
    }
}

fn count_content(files: &Vec<FileEntry>) -> (count: usize)
    ensures
        count == content_of(files_view(files@)).len(),
{
    let ghost models = files_view(files@);
    let mut count: usize = 0;
    let mut i: usize = 0;
    assert(models.take(0) =~= Seq::empty());
    while i < files.len()
        invariant
            models == files_view(files@),
            i <= files@.len(),
            count <= i,
            count == content_of(models.take(i as int)).len(),
        decreases files@.len() - i,
    {
        proof {
            assert(models.take(i + 1).drop_last() =~= models.take(i as int));
            assert(models.take(i + 1).last() == files@[i as int]@);
        }
        if !files[i].padding {
            count += 1;
        }
        i += 1;
    }
    assert(models.take(models.len() as int) =~= models);
    count
}

fn slash_at_end(path: &String) -> (result: bool)
    ensures
        result == ends_with_slash(path@),
{
    let length: usize = path.as_str().unicode_len();
    length > 0 && path.as_str().get_char(length - 1) == '/'
}

pub fn web_seed_file_url(seed: &UrlParts, metainfo: &Metainfo, file: &FileEntry) -> (result: Result<
    String,
    ActorError,
>)
    requires
        seed.text@.len() + texts_size(file.path@) + file.path@.len() <= 0x0800_0000,
    ensures
        match result {
            Ok(url) => file_url_of(seed@, metainfo@.files, file.path@) == Ok::<
                Seq<char>,
                Fault,
            >(url@),
            Err(error) => file_url_of(seed@, metainfo@.files, file.path@) == Err::<
                Seq<char>,
                Fault,
            >(error@),
        },
{
    if slash_at_end(&seed.path) {
        let components = file.path.components();
        assert(texts(components@).len() == components@.len());
        return match extend_url(seed.text.as_str(), components) {
            Some(url) => Ok(url),
            None => Err(ActorError::web_seed("web seed URL cannot contain paths")),
        };
    }
    if count_content(&metainfo.files) == 1 {
        return Ok(seed.text.clone());
    }
    Err(ActorError::web_seed("multi-file web seed URL must end with '/'"))
}

/// The web seeds of a torrent that can be asked.
pub open spec fn usable_seeds_of(seeds: Seq<Seq<char>>) -> Seq<UrlModel>
    decreases seeds.len(),
{
    if seeds.len() == 0 {
        Seq::empty()
    } else {
        let before = usable_seeds_of(seeds.drop_last());
        match url_of(seeds.last()) {
            Ok(url) => if url.scheme == "http"@ || url.scheme == "https"@ {
                before.push(url)
            } else {
                before
            },
            Err(_) => before,
        }
    }
}

pub fn usable_web_seeds(web_seeds: &Vec<String>) -> (result: Result<Vec<UrlParts>, ActorError>)
    ensures
        match result {
            Ok(seeds) => seeds@.len() > 0 && urls_view(seeds@)
                == usable_seeds_of(texts(web_seeds@)),
            Err(error) => usable_seeds_of(texts(web_seeds@)).len() == 0 && error@ == Fault::WebSeed(
                "metainfo has no valid HTTP(S) web-seed URL"@,
            ),
        },
{
    let ghost names = texts(web_seeds@);
    let mut seeds: Vec<UrlParts> = Vec::new();
    let mut i: usize = 0;
    proof {
        assert(names.take(0) =~= Seq::empty());
        assert(urls_view(seeds@) =~= Seq::empty());
    }
    while i < web_seeds.len()
        invariant
            names == texts(web_seeds@),
            i <= web_seeds@.len(),
            urls_view(seeds@) == usable_seeds_of(names.take(i as int)),
        decreases web_seeds@.len() - i,
    {
        proof {
            assert(names.take(i + 1).drop_last() =~= names.take(i as int));
            assert(names.take(i + 1).last() == web_seeds@[i as int]@);
        }
        if let Ok(url) = parse_url(web_seeds[i].as_str()) {
            if url.scheme == String::from_str("http") || url.scheme == String::from_str("https") {
                let ghost before = urls_view(seeds@);
                seeds.push(url);
                assert(urls_view(seeds@) =~= before.push(url@));
            }
        }
        i += 1;
    }
    assert(names.take(names.len() as int) =~= names);
    assert(urls_view(seeds@).len() == seeds@.len());
    if seeds.len() == 0 {
        return Err(ActorError::web_seed("metainfo has no valid HTTP(S) web-seed URL"));
    }
    Ok(seeds)
}

/// A range of a file that is asked for.
#[derive(Debug)]
pub struct RangeRequest {
    pub offset: u64,
    /// The last byte of the range.
    pub end: u64,
    pub length: usize,
    pub file_length: u64,
}

/// The end of a range, if it can be written.
pub open spec fn range_end(offset: int, length: int) -> Option<int> {
    if offset + length > u64::MAX || offset + length == 0 {
        None
    } else {
        Some(offset + length - 1)
    }
}

/// How a range is asked for.
pub open spec fn range_text(offset: int, end: int) -> Seq<char> {
    "bytes="@ + number_text(offset as nat) + "-"@ + number_text(end as nat)
}

/// How a server names the range that it sends.
pub open spec fn content_range_text(offset: int, end: int, file_length: int) -> Seq<char> {
    "bytes "@ + number_text(offset as nat) + "-"@ + number_text(end as nat) + "/"@ + number_text(
        file_length as nat,
    )
}

/// What a server answered before it sent any data.
#[derive(Debug)]
pub struct RangeResponse {
    pub status: u16,
    /// The status as it is written, with its reason.
    pub status_text: String,
    pub content_encoding: Option<Vec<u8>>,
    pub content_range: Option<String>,
    pub content_length: Option<u64>,
}

/// What is wrong with an answer, if anything: the range has to be sent as it
/// was asked for, or the whole file where the range is the whole file, and
/// never encoded.
pub open spec fn response_fault(
    offset: int,
    end: int,
    length: int,
    file_length: int,
    response: RangeResponse,
) -> Option<Fault> {
    if response.status != 206 && !(offset == 0 && length == file_length && response.status == 200) {
        Some(Fault::WebSeed("web seed returned HTTP "@ + response.status_text@))
    } else if response.content_encoding is Some && response.content_encoding->0@ != encode_utf8(
        "identity"@,
    ) {
        Some(
            Fault::WebSeed("web seed returned encoded content despite an identity request"@),
        )
    } else if response.status == 206 && (response.content_range is None
        || response.content_range->0@ != content_range_text(offset, end, file_length)) {
        Some(Fault::WebSeed("web seed returned a missing or mismatched Content-Range"@))
    } else if response.content_length is Some && response.content_length->0 != length {
        Some(Fault::WebSeed("web seed declared the wrong range length"@))
    } else {
        None
    }
}

impl RangeRequest {
    pub open spec fn wf(&self) -> bool {
        range_end(self.offset as int, self.length as int) == Some(self.end as int)
    }

    pub fn new(offset: u64, length: usize, file_length: u64) -> (result: Result<Self, ActorError>)
        ensures
            match result {
                Ok(request) => request.wf() && request.offset == offset && request.length == length
                    && request.file_length == file_length,
                Err(error) => range_end(offset as int, length as int) is None && error@
                    == Fault::Arithmetic,
            },
    {
        match offset.checked_add(length as u64) {
            Some(past) => if past == 0 {
                Err(ActorError::Arithmetic)
            } else {
                Ok(Self { offset, end: past - 1, length, file_length })
            },
            None => Err(ActorError::Arithmetic),
        }
    }

    /// The value of the request's `Range` header.
    pub fn header(&self) -> (text: String)
        ensures
            text@ == range_text(self.offset as int, self.end as int),
    {
        let mut text = join("bytes=", number(self.offset as u128).as_str());
        text.append("-");
        text.append(number(self.end as u128).as_str());
        text
    }

    fn expected_range(&self) -> (text: String)
        ensures
            text@ == content_range_text(
                self.offset as int,
                self.end as int,
                self.file_length as int,
            ),
    {
        let mut text = join("bytes ", number(self.offset as u128).as_str());
        text.append("-");
        text.append(number(self.end as u128).as_str());
        text.append("/");
        text.append(number(self.file_length as u128).as_str());
        text
    }

    /// Checks an answer before any data is read.
    pub fn check_response(&self, response: &RangeResponse) -> (result: Result<(), ActorError>)
        ensures
            ({
                let fault = response_fault(
                    self.offset as int,
                    self.end as int,
                    self.length as int,
                    self.file_length as int,
                    *response,
                );
                match result {
                    Ok(()) => fault is None,
                    Err(error) => fault == Some(error@),
                }
            }),
    {
        let full_file: bool = self.offset == 0 && self.length as u64 == self.file_length;
        if response.status != 206 && !(full_file && response.status == 200) {
            return Err(
                ActorError::WebSeed(
                    join("web seed returned HTTP ", response.status_text.as_str()),
                ),
            );
        }
        if let Some(encoding) = &response.content_encoding {
            if !bytes_equal(encoding.as_slice(), "identity".as_bytes()) {
                return Err(
                    ActorError::web_seed(
                        "web seed returned encoded content despite an identity request",
                    ),
                );
            }
        }
        if response.status == 206 {
            let expected = self.expected_range();
            let matching: bool = match &response.content_range {
                Some(range) => *range == expected,
                None => false,
            };
            if !matching {
                return Err(
                    ActorError::web_seed("web seed returned a missing or mismatched Content-Range"),
                );
            }
        }
        if let Some(actual) = response.content_length {
            if actual != self.length as u64 {
                return Err(ActorError::web_seed("web seed declared the wrong range length"));
            }
        }
        Ok(())
    }

    /// Adds data that arrived, as long as it stays inside the range.
    pub fn receive(&self, output: &mut Vec<u8>, chunk: &[u8]) -> (result: Result<(), ActorError>)
        ensures
            match result {
                Ok(()) => old(output)@.len() + chunk@.len() <= self.length && final(output)@
                    == old(output)@ + chunk@,
                Err(error) => old(output)@.len() + chunk@.len() > self.length && error@
                    == Fault::WebSeed("web seed response exceeded the requested range"@)
                    && final(output)@ == old(output)@,
            },
    {
        if output.len().saturating_add(chunk.len()) > self.length || output.len() > usize::MAX
            - chunk.len() {
            return Err(ActorError::web_seed("web seed response exceeded the requested range"));
        }
        output.extend_from_slice(chunk);
        assert(output@ =~= old(output)@ + chunk@);
        Ok(())
    }

    /// Checks that the whole range arrived.
    pub fn finish(&self, output: &Vec<u8>) -> (result: Result<(), ActorError>)
        ensures
            match result {
                Ok(()) => output@.len() == self.length,
                Err(error) => output@.len() != self.length && error@ == Fault::WebSeed(
                    "web seed returned a short range"@,
                ),
            },
    {
        if output.len() != self.length {
            return Err(ActorError::web_seed("web seed returned a short range"));
        }
        Ok(())
    }
}

/// A piece put together from the ranges that a server sent.
pub fn assemble_web_seed_piece(
    segments: &Vec<FileSegment<'_>>,
    parts: &Vec<Option<Vec<u8>>>,
    length: usize,
) -> (result: Result<Vec<u8>, ActorError>)
    requires
        parts@.len() == segments@.len(),
    ensures
        ({
            let wanted = piece_from(
                segments_view(segments@),
                parts_view(parts@),
                length as int,
            );
            match result {
                Ok(piece) => wanted == Some(piece@),
                Err(error) => wanted is None && error@ == Fault::WebSeed(
                    "web seed assembled a piece with the wrong length"@,
                ),
            }
        }),
{
    match assemble_piece(segments, parts, length) {
        Some(piece) => Ok(piece),
        None => Err(ActorError::web_seed("web seed assembled a piece with the wrong length")),
    }
}

/// The search for a server that has a piece. A server that sends data that
/// fails verification is never asked again; one that fails otherwise is passed
/// over for this piece only.
#[derive(Debug)]
pub struct WebSeedSearch {
    pub seeds: Vec<UrlParts>,
    pub index: usize,
    pub last_error: Option<String>,
}

impl WebSeedSearch {
    pub open spec fn wf(&self) -> bool {
        self.index <= self.seeds@.len()
    }

    pub fn new(seeds: Vec<UrlParts>) -> (search: Self)
        ensures
            search.wf(),
            search.seeds == seeds,
            search.index == 0,
            search.last_error is None,
    {
        Self { seeds, index: 0, last_error: None }
    }

    /// Starts over for another piece.
    pub fn next_piece(&mut self)
        ensures
            final(self).wf(),
            final(self).seeds == old(self).seeds,
            final(self).index == 0,
            final(self).last_error is None,
    {
        self.index = 0;
        self.last_error = None;
    }

    /// The server to ask, if one is left.
    pub fn current(&self) -> (seed: Option<&UrlParts>)
        requires
            self.wf(),
        ensures
            match seed {
                Some(seed) => self.index < self.seeds@.len() && *seed
                    == self.seeds@[self.index as int],
                None => self.index == self.seeds@.len(),
            },
    {
        if self.index < self.seeds.len() {
            Some(&self.seeds[self.index])
        } else {
            None
        }
    }

    /// The server sent data that failed verification.
    pub fn reject_data(&mut self)
        requires
            old(self).wf(),
            old(self).index < old(self).seeds@.len(),
        ensures
            final(self).wf(),
            final(self).seeds@ == old(self).seeds@.remove(old(self).index as int),
            final(self).index == old(self).index,
            final(self).last_error is Some,
            final(self).last_error->0@
                == "web seed returned data that failed piece verification"@,
    {
        self.last_error = Some(
            String::from_str("web seed returned data that failed piece verification"),
        );
        self.seeds.remove(self.index);
    }

    /// The server could not be asked, or its answer was not acceptable.
    pub fn pass_over(&mut self, error: ActorError)
        requires
            old(self).wf(),
            old(self).index < old(self).seeds@.len(),
        ensures
            final(self).wf(),
            final(self).seeds == old(self).seeds,
            final(self).index == old(self).index + 1,
            final(self).last_error is Some,
            final(self).last_error->0@ == fault_text(error@),
    {
        self.last_error = Some(error.message());
        assert(self.index < self.seeds.len());
        self.index = self.index + 1;
    }

    /// No server has the piece.
    pub fn give_up(&mut self) -> (error: ActorError)
        ensures
            error@ == Fault::WebSeed(
                match old(self).last_error {
                    Some(text) => text@,
                    None => "all web seeds failed"@,
                },
            ),
            final(self).seeds == old(self).seeds,
            final(self).index == old(self).index,
            final(self).last_error is None,
    {
        match self.last_error.take() {
            Some(text) => ActorError::WebSeed(text),
            None => ActorError::web_seed("all web seeds failed"),
        }
    }
}

/// An answer that is accepted, and whose data arrives without an error, is
/// exactly as long as the range, and a partial answer names that range.
pub proof fn law_accepted_range_is_exact(
    offset: int,
    end: int,
    length: int,
    file_length: int,
    response: RangeResponse,
)
    requires
        response_fault(offset, end, length, file_length, response) is None,
    ensures
        response.status == 206 || (response.status == 200 && offset == 0 && length == file_length),
        response.status == 206 ==> response.content_range is Some && response.content_range->0@
            == content_range_text(offset, end, file_length),
        response.content_length is Some ==> response.content_length->0 == length,
{
}

/// An IPv4 address is judged alike on its own and mapped into IPv6.
pub proof fn law_mapping_hides_nothing(ip: u32)
    ensures
        is_public(IpAddress::V6((0xffff_0000_0000u128 + ip as u128) as u128)) == is_public(
            IpAddress::V4(ip),
        ),
{
    let wide = 0xffff_0000_0000int + ip as int;
    assert(wide / 0x1_0000_0000 == 0xffff);
    assert(wide % 0x1_0000_0000 == ip);
}

} // verus!
