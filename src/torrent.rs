use vstd::prelude::*;
use vstd::string::*;
use crate::bencode::{
    BencodeDictionary, BencodeError, BencodeErrorKind, BencodeList, BencodeToken, Parser,
    TokenModel, model_entry, spec_decode,
};
use crate::bencode::lemma_entry_model;
use crate::digest::{calculate_info_hash, sha1_of, text_from_utf8, utf8_text};

verus! {

#[derive(Debug)]
pub enum TorrentErrorKind {
    MalformedData,
}

#[derive(Debug)]
pub struct TorrentError {
    pub kind: TorrentErrorKind,
    pub message: String,
}

impl TorrentError {
    pub fn new(kind: TorrentErrorKind, message: String) -> (r: TorrentError)
        ensures
            r.kind == kind,
            r.message@ == message@,
    {
        TorrentError { kind, message }
    }
}

fn malformed(text: &str) -> TorrentError {
    TorrentError::new(TorrentErrorKind::MalformedData, String::from_str(text))
}

#[derive(Debug, Clone)]
pub struct Torrent {
    pub announce: Option<String>,
    pub announce_list: Option<Vec<Vec<String>>>,
    pub info: Info,
    pub creation_date: Option<i128>,
    pub comment: Option<String>,
    pub created_by: Option<String>,
    /// SHA-1 of the byte range of the `info` dictionary in the descriptor.
    pub info_hash: Vec<u8>,
}

#[derive(Debug, Clone)]
pub struct File {
    pub length: u64,
    pub path: Vec<String>,
}

#[derive(Debug, Clone)]
pub struct Info {
    pub name: String,
    pub length: Option<u64>,
    pub files: Option<Vec<File>>,
    pub piece_length: u64,
    pub pieces: Vec<Vec<u8>>,
    pub private: Option<i128>,
}

/// The sum of the lengths of `files`.
pub open spec fn files_total(files: Seq<File>) -> int
    decreases files.len(),
{
    if files.len() == 0 {
        0
    } else {
        files_total(files.drop_last()) + files.last().length
    }
}

/// The number of pieces of length `piece_length` that cover `total` bytes.
pub open spec fn pieces_for(total: int, piece_length: int) -> int {
    total / piece_length + if total % piece_length == 0 {
        0int
    } else {
        1int
    }
}

impl File {
    /// A padding file: its path is `[".pad", N]` with `N` made of decimal digits only.
    pub open spec fn spec_padding(&self) -> bool {
        &&& self.path@.len() == 2
        &&& self.path@[0]@ == seq!['.', 'p', 'a', 'd']
        &&& forall|i: int| 0 <= i < self.path@[1]@.len() ==> '0' <= #[trigger] self.path@[1]@[i] <= '9'
    }

    pub fn padding(&self) -> (r: bool)
        ensures
            r == self.spec_padding(),
    {
        if self.path.len() != 2 {
            return false;
        }
        let first = self.path[0].as_str();
        if first.unicode_len() != 4 || first.get_char(0) != '.' || first.get_char(1) != 'p'
            || first.get_char(2) != 'a' || first.get_char(3) != 'd' {
            return false;
        }
        proof {
            assert(self.path@[0]@ =~= seq!['.', 'p', 'a', 'd']);
        }
        let second = self.path[1].as_str();
        let n = second.unicode_len();
        let mut i: usize = 0;
        while i < n
            invariant
                i <= n,
                n == second@.len(),
                second@ == self.path@[1]@,
                forall|j: int| 0 <= j < i ==> '0' <= #[trigger] second@[j] <= '9',
            decreases n - i,
        {
            let c = second.get_char(i);
            if c < '0' || c > '9' {
                return false;
            }
            i = i + 1;
        }
        true
    }
}

impl Info {
    /// The total length of the content: the single length, or the sum of the files.
    pub open spec fn total_length(&self) -> int {
        match self.length {
            Some(l) => l as int,
            None => match self.files {
                Some(fs) => files_total(fs@),
                None => 0,
            },
        }
    }

    /// The invariants of a descriptor's info: a positive piece length, exactly one of
    /// `length` and `files`, files with non-empty paths, 20-byte piece digests, and
    /// `ceil(total_length / piece_length)` pieces.
    pub open spec fn wf(&self) -> bool {
        &&& self.piece_length > 0
        &&& self.length is Some != self.files is Some
        &&& (self.files matches Some(fs) ==> fs@.len() > 0 && forall|i: int|
            0 <= i < fs@.len() ==> (#[trigger] fs@[i]).path@.len() > 0)
        &&& self.total_length() <= u64::MAX
        &&& forall|i: int| 0 <= i < self.pieces@.len() ==> (#[trigger] self.pieces@[i])@.len() == 20
        &&& self.pieces@.len() == pieces_for(self.total_length(), self.piece_length as int)
    }
}

proof fn lemma_files_total_monotone(files: Seq<File>, i: int)
    requires
        0 <= i <= files.len(),
    ensures
        files_total(files.subrange(0, i)) <= files_total(files),
    decreases files.len() - i,
{
    if i < files.len() {
        lemma_files_total_monotone(files, i + 1);
        assert(files.subrange(0, i + 1).drop_last() =~= files.subrange(0, i));
    } else {
        assert(files.subrange(0, i) =~= files);
    }
}

/// The bytes of the key `info`.
pub open spec fn key_info() -> Seq<u8> {
    seq![105u8, 110, 102, 111]
}

fn info_key() -> (r: Vec<u8>)
    ensures
        r@ == key_info(),
{
    vec![105, 110, 102, 111]
}

// ---------------------------------------------------------------------------
// Which decoded descriptors are accepted
// ---------------------------------------------------------------------------

/// The value of key `k` in a dictionary.
pub open spec fn dict_get(t: TokenModel, k: Seq<u8>) -> Option<TokenModel> {
    match t {
        TokenModel::Dict { keys, values, .. } => model_entry(keys, values, k),
        _ => None,
    }
}

/// A UTF-8 string.
pub open spec fn text_ok(t: TokenModel) -> bool {
    match t {
        TokenModel::Str(s) => utf8_text(s.value) is Some,
        _ => false,
    }
}

/// A list of UTF-8 strings.
pub open spec fn texts_ok(t: TokenModel) -> bool {
    match t {
        TokenModel::List { items, .. } => forall|i: int| 0 <= i < items.len() ==> text_ok(#[trigger] items[i]),
        _ => false,
    }
}

/// The entries of a list, or none.
pub open spec fn list_items(t: TokenModel) -> Seq<TokenModel> {
    match t {
        TokenModel::List { items, .. } => items,
        _ => Seq::empty(),
    }
}

/// Where present and a string, UTF-8.
pub open spec fn optional_text_ok(t: Option<TokenModel>) -> bool {
    match t {
        Some(TokenModel::Str(s)) => utf8_text(s.value) is Some,
        _ => true,
    }
}

/// An integer that is a size: non-negative and within `u64`.
pub open spec fn size_value(t: Option<TokenModel>) -> Option<int> {
    match t {
        Some(TokenModel::Int { value, .. }) => if 0 <= value <= u64::MAX {
            Some(value)
        } else {
            None
        },
        _ => None,
    }
}

pub open spec fn is_int(t: Option<TokenModel>) -> bool {
    t matches Some(TokenModel::Int { .. })
}

pub open spec fn is_list(t: Option<TokenModel>) -> bool {
    t matches Some(TokenModel::List { .. })
}

/// A file of a multi-file descriptor: a size `length` and a non-empty `path` of UTF-8
/// strings.
pub open spec fn file_ok(t: TokenModel) -> bool {
    &&& t is Dict
    &&& size_value(dict_get(t, "length".spec_bytes())) is Some
    &&& dict_get(t, "path".spec_bytes()) matches Some(p)
    &&& texts_ok(p)
    &&& list_items(p).len() > 0
}

/// A list of files.
pub open spec fn files_ok(t: TokenModel) -> bool {
    match t {
        TokenModel::List { items, .. } => forall|i: int| 0 <= i < items.len() ==> file_ok(#[trigger] items[i]),
        _ => false,
    }
}

/// Where present and a list, a list of lists of UTF-8 strings.
pub open spec fn announce_list_ok(t: Option<TokenModel>) -> bool {
    match t {
        Some(TokenModel::List { items, .. }) => forall|i: int| 0 <= i < items.len() ==> texts_ok(#[trigger] items[i]),
        _ => true,
    }
}

/// The sum of the lengths of a list of files.
pub open spec fn model_files_total(items: Seq<TokenModel>) -> int
    decreases items.len(),
{
    if items.len() == 0 {
        0
    } else {
        model_files_total(items.drop_last()) + match size_value(dict_get(items.last(), "length".spec_bytes())) {
            Some(v) => v,
            None => 0,
        }
    }
}

/// The total length an info dictionary declares: its single length, or the sum of the
/// lengths of its files.
pub open spec fn declared_total(info: TokenModel) -> int {
    if is_int(dict_get(info, "length".spec_bytes())) {
        match size_value(dict_get(info, "length".spec_bytes())) {
            Some(v) => v,
            None => 0,
        }
    } else {
        match dict_get(info, "files".spec_bytes()) {
            Some(f) => model_files_total(list_items(f)),
            None => 0,
        }
    }
}

/// An accepted info dictionary: a UTF-8 `name`; `pieces`, a whole number of 20-byte
/// digests; a positive size `piece length`; exactly one of a size `length` and a
/// non-empty list of `files`; a total length within `u64`, covered by exactly as many
/// pieces as there are digests.
pub open spec fn info_ok(info: TokenModel) -> bool {
    &&& info is Dict
    &&& dict_get(info, "name".spec_bytes()) matches Some(n)
    &&& text_ok(n)
    &&& dict_get(info, "pieces".spec_bytes()) matches Some(TokenModel::Str(p))
    &&& p.value.len() % 20 == 0
    &&& size_value(dict_get(info, "piece length".spec_bytes())) matches Some(pl)
    &&& pl > 0
    &&& is_int(dict_get(info, "length".spec_bytes())) != is_list(dict_get(info, "files".spec_bytes()))
    &&& is_int(dict_get(info, "length".spec_bytes())) ==> size_value(dict_get(info, "length".spec_bytes())) is Some
    &&& is_list(dict_get(info, "files".spec_bytes())) ==> files_ok(dict_get(info, "files".spec_bytes())->0)
        && list_items(dict_get(info, "files".spec_bytes())->0).len() > 0
    &&& declared_total(info) <= u64::MAX
    &&& p.value.len() / 20 == pieces_for(declared_total(info), pl)
}

/// An accepted root dictionary: an accepted `info` dictionary; UTF-8 `announce`,
/// `comment` and `created by` where they are strings; an `announce-list` of lists of
/// UTF-8 strings where it is a list.
pub open spec fn root_ok(root: TokenModel) -> bool {
    &&& optional_text_ok(dict_get(root, "announce".spec_bytes()))
    &&& dict_get(root, key_info()) matches Some(info)
    &&& info is Dict
    &&& info_ok(info)
    &&& announce_list_ok(dict_get(root, "announce-list".spec_bytes()))
    &&& optional_text_ok(dict_get(root, "comment".spec_bytes()))
    &&& optional_text_ok(dict_get(root, "created by".spec_bytes()))
}

// ---------------------------------------------------------------------------
// What an accepted descriptor reads as
// ---------------------------------------------------------------------------

/// The bytes of a string, or none.
pub open spec fn str_value(t: Option<TokenModel>) -> Seq<u8> {
    match t {
        Some(TokenModel::Str(s)) => s.value,
        _ => Seq::empty(),
    }
}

/// The value of an integer, if it is one.
pub open spec fn int_value(t: Option<TokenModel>) -> Option<int> {
    match t {
        Some(TokenModel::Int { value, .. }) => Some(value),
        _ => None,
    }
}

/// The text of a string, where it is one; none otherwise.
pub open spec fn optional_text_matches(o: Option<String>, t: Option<TokenModel>) -> bool {
    match t {
        Some(TokenModel::Str(s)) => o matches Some(x) && utf8_text(s.value) == Some(x@),
        _ => o is None,
    }
}

/// An integer, where it is one; none otherwise.
pub open spec fn optional_int_matches(o: Option<i128>, t: Option<TokenModel>) -> bool {
    match o {
        Some(v) => int_value(t) == Some(v as int),
        None => int_value(t) is None,
    }
}

/// The 20-byte digests, one after the other, are `v`.
pub open spec fn pieces_match(ps: Seq<Vec<u8>>, v: Seq<u8>) -> bool {
    &&& v.len() == 20 * ps.len()
    &&& forall|k: int| 0 <= k < ps.len() ==> (#[trigger] ps[k])@ == v.subrange(20 * k, 20 * k + 20)
}

/// A file read from its dictionary: its length and the text of each path component.
pub open spec fn file_matches(f: File, m: TokenModel) -> bool {
    let path = list_items(dict_get(m, "path".spec_bytes())->0);
    &&& size_value(dict_get(m, "length".spec_bytes())) == Some(f.length as int)
    &&& f.path@.len() == path.len()
    &&& forall|j: int| 0 <= j < path.len() ==> utf8_text(path[j]->Str_0.value) == Some((#[trigger] f.path@[j])@)
}

pub open spec fn files_match(fs: Seq<File>, items: Seq<TokenModel>) -> bool {
    &&& fs.len() == items.len()
    &&& forall|k: int| 0 <= k < fs.len() ==> file_matches(#[trigger] fs[k], items[k])
}

/// An info read from its dictionary.
pub open spec fn info_matches(i: Info, m: TokenModel) -> bool {
    &&& utf8_text(str_value(dict_get(m, "name".spec_bytes()))) == Some(i.name@)
    &&& size_value(dict_get(m, "piece length".spec_bytes())) == Some(i.piece_length as int)
    &&& pieces_match(i.pieces@, str_value(dict_get(m, "pieces".spec_bytes())))
    &&& (i.length is Some) == is_int(dict_get(m, "length".spec_bytes()))
    &&& (i.length matches Some(l) ==> size_value(dict_get(m, "length".spec_bytes())) == Some(l as int))
    &&& (i.files is Some) == is_list(dict_get(m, "files".spec_bytes()))
    &&& (i.files matches Some(fs) ==> files_match(fs@, list_items(dict_get(m, "files".spec_bytes())->0)))
    &&& optional_int_matches(i.private, dict_get(m, "private".spec_bytes()))
}

/// A descriptor read from its root dictionary.
pub open spec fn torrent_matches(t: Torrent, root: TokenModel) -> bool {
    &&& optional_text_matches(t.announce, dict_get(root, "announce".spec_bytes()))
    &&& (t.announce_list is Some) == is_list(dict_get(root, "announce-list".spec_bytes()))
    &&& info_matches(t.info, dict_get(root, key_info())->0)
    &&& optional_int_matches(t.creation_date, dict_get(root, "creation date".spec_bytes()))
    &&& optional_text_matches(t.comment, dict_get(root, "comment".spec_bytes()))
    &&& optional_text_matches(t.created_by, dict_get(root, "created by".spec_bytes()))
}

proof fn lemma_files_totals_agree(files: Seq<File>, items: Seq<TokenModel>)
    requires
        files.len() == items.len(),
        forall|i: int|
            0 <= i < files.len() ==> size_value(dict_get(#[trigger] items[i], "length".spec_bytes())) == Some(
                files[i].length as int,
            ),
    ensures
        files_total(files) == model_files_total(items),
    decreases files.len(),
{
    if files.len() > 0 {
        lemma_files_totals_agree(files.drop_last(), items.drop_last());
        assert(size_value(dict_get(items[items.len() - 1], "length".spec_bytes())) == Some(
            files[files.len() - 1].length as int,
        ));
    }
}

impl Torrent {
    /// The info-digest of a descriptor: the SHA-1 of the bytes of its `info` dictionary.
    pub open spec fn info_digest_of(bytes: Seq<u8>) -> Option<Seq<u8>> {
        match spec_decode(bytes) {
            Some(TokenModel::Dict { keys, values, .. }) => match model_entry(keys, values, key_info()) {
                Some(TokenModel::Dict { start, end, .. }) => Some(sha1_of(bytes.subrange(start, end))),
                _ => None,
            },
            _ => None,
        }
    }

    /// Reads a descriptor: decodes it, computes its info-digest and checks its invariants.
    pub fn from_bytes(bytes: &[u8]) -> (r: Result<Torrent, TorrentError>)
        ensures
            r is Ok <==> (spec_decode(bytes@) matches Some(root) && root is Dict && root_ok(root)),
            r matches Ok(t) ==> spec_decode(bytes@) matches Some(root) && torrent_matches(t, root),
            r matches Ok(t) ==> {
                &&& t.info.wf()
                &&& Torrent::info_digest_of(bytes@) == Some(t.info_hash@)
            },
    {
        let token = match Parser::decode(bytes) {
            Ok(token) => token,
            Err(err) => {
                return Err(Torrent::convert_error(err));
            },
        };
        if let BencodeToken::Dictionary(root) = token {
            return Torrent::evaluate_root(&root, bytes);
        }
        Err(malformed("unexpected token at root: expected a dictionary"))
    }

    fn evaluate_root(root: &BencodeDictionary, bytes: &[u8]) -> (r: Result<Torrent, TorrentError>)
        requires
            spec_decode(bytes@) == Some(root@),
        ensures
            r is Ok <==> root_ok(root@),
            r matches Ok(t) ==> torrent_matches(t, root@),
            r matches Ok(t) ==> {
                &&& t.info.wf()
                &&& Torrent::info_digest_of(bytes@) == Some(t.info_hash@)
            },
    {
        proof {
            lemma_entry_model(root, "creation date".spec_bytes());
            lemma_entry_model(root, "announce".spec_bytes());
            lemma_entry_model(root, key_info());
            lemma_entry_model(root, "announce-list".spec_bytes());
            lemma_entry_model(root, "comment".spec_bytes());
            lemma_entry_model(root, "created by".spec_bytes());
        }
        let announce = match root.find_string_value("announce".as_bytes()) {
            Ok(value) => match text_from_utf8(value.value.as_slice()) {
                Some(text) => Some(text),
                None => {
                    return Err(malformed("announce is not UTF-8"));
                },
            },
            Err(_) => None,
        };
        let info = match root.find_dictionary_value(info_key().as_slice()) {
            Ok(info) => info,
            Err(err) => {
                return Err(Torrent::convert_error(err));
            },
        };
        proof {
            crate::bencode::lemma_entry_model(root, key_info());
            crate::bencode::lemma_decoded_values_within(bytes@, key_info());
        }
        let info_hash = calculate_info_hash(info, bytes);
        let info_value = Torrent::evaluate_info(info)?;
        let announce_list = match root.find_list_value("announce-list".as_bytes()) {
            Ok(value) => Some(Torrent::evaluate_announce(value)?),
            Err(_) => None,
        };
        let creation_date = match root.find_integer_value("creation date".as_bytes()) {
            Ok(value) => Some(value.value),
            Err(_) => None,
        };
        let comment = match root.find_string_value("comment".as_bytes()) {
            Ok(value) => match text_from_utf8(value.value.as_slice()) {
                Some(text) => Some(text),
                None => {
                    return Err(malformed("comment is not UTF-8"));
                },
            },
            Err(_) => None,
        };
        let created_by = match root.find_string_value("created by".as_bytes()) {
            Ok(value) => match text_from_utf8(value.value.as_slice()) {
                Some(text) => Some(text),
                None => {
                    return Err(malformed("created by is not UTF-8"));
                },
            },
            Err(_) => None,
        };
        Ok(Torrent {
            announce,
            announce_list,
            info: info_value,
            creation_date,
            comment,
            created_by,
            info_hash,
        })
    }

    fn evaluate_info(info: &BencodeDictionary) -> (r: Result<Info, TorrentError>)
        ensures
            r is Ok <==> info_ok(info@),
            r matches Ok(i) ==> i.wf() && i.total_length() == declared_total(info@),
            r matches Ok(i) ==> info_matches(i, info@),
    {
        proof {
            lemma_entry_model(info, "private".spec_bytes());
            lemma_entry_model(info, "name".spec_bytes());
            lemma_entry_model(info, "pieces".spec_bytes());
            lemma_entry_model(info, "piece length".spec_bytes());
            lemma_entry_model(info, "length".spec_bytes());
            lemma_entry_model(info, "files".spec_bytes());
        }
        let name = match info.find_string_value("name".as_bytes()) {
            Ok(value) => match text_from_utf8(value.value.as_slice()) {
                Some(text) => text,
                None => {
                    return Err(malformed("name is not UTF-8"));
                },
            },
            Err(err) => {
                return Err(Torrent::convert_error(err));
            },
        };
        let pieces = match info.find_string_value("pieces".as_bytes()) {
            Ok(value) => Torrent::split_pieces(&value.value)?,
            Err(err) => {
                return Err(Torrent::convert_error(err));
            },
        };
        let piece_length = match info.find_integer_value("piece length".as_bytes()) {
            Ok(value) => Torrent::to_size(value.value)?,
            Err(err) => {
                return Err(Torrent::convert_error(err));
            },
        };
        if piece_length == 0 {
            return Err(malformed("piece length must be positive"));
        }
        let length = info.find_integer_value("length".as_bytes());
        let files = info.find_list_value("files".as_bytes());
        if length.is_ok() && files.is_ok() {
            return Err(malformed("info contains both length and files; only one must be present"));
        }
        if length.is_err() && files.is_err() {
            return Err(malformed("info contains neither length nor files; one must be present"));
        }
        let length = match length {
            Ok(value) => Some(Torrent::to_size(value.value)?),
            Err(_) => None,
        };
        let files = match files {
            Ok(value) => {
                let files = Torrent::evaluate_files(value)?;
                if files.len() == 0 {
                    return Err(malformed("files has no entries; one file must be present"));
                }
                Some(files)
            },
            Err(_) => None,
        };
        let private = match info.find_integer_value("private".as_bytes()) {
            Ok(value) => Some(value.value),
            Err(_) => None,
        };
        proof {
            if let Some(fs) = &files {
                let fl = dict_get(info@, "files".spec_bytes())->0;
                lemma_files_totals_agree(fs@, list_items(fl));
            }
        }
        let total_length = match &files {
            Some(files) => match Torrent::sum_lengths(files) {
                Some(total) => total,
                None => {
                    return Err(malformed("the total length of the files overflows"));
                },
            },
            None => match length {
                Some(l) => l,
                None => 0,
            },
        };
        if !Torrent::validate_piece_length(total_length, piece_length, &pieces) {
            return Err(malformed("piece count does not match the total length"));
        }
        Ok(Info { name, files, length, piece_length, pieces, private })
    }

    /// Splits the concatenated piece digests into 20-byte digests.
    fn split_pieces(value: &Vec<u8>) -> (r: Result<Vec<Vec<u8>>, TorrentError>)
        ensures
            r matches Ok(p) ==> {
                &&& value@.len() == 20 * p@.len()
                &&& forall|i: int|
                    0 <= i < p@.len() ==> (#[trigger] p@[i])@ == value@.subrange(20 * i, 20 * i + 20)
            },
            r is Err <==> value@.len() % 20 != 0,
    {
        if value.len() % 20 != 0 {
            return Err(malformed("pieces is not a whole number of 20-byte digests"));
        }
        let total = value.len();
        let count = total / 20;
        let mut pieces: Vec<Vec<u8>> = Vec::new();
        let mut k: usize = 0;
        while k < count
            invariant
                k <= count,
                count * 20 == value@.len(),
                count * 20 == total,
                pieces@.len() == k,
                forall|i: int|
                    0 <= i < k ==> (#[trigger] pieces@[i])@ == value@.subrange(20 * i, 20 * i + 20),
            decreases count - k,
        {
            let mut digest: Vec<u8> = Vec::new();
            let begin = 20 * k;
            let mut j: usize = 0;
            while j < 20
                invariant
                    j <= 20,
                    k < count,
                    count * 20 == value@.len(),
                    count * 20 == total,
                    begin == 20 * k,
                    digest@ == value@.subrange(begin as int, begin + j),
                decreases 20 - j,
            {
                digest.push(value[begin + j]);
                proof {
                    assert(digest@ =~= value@.subrange(begin as int, begin + j + 1));
                }
                j = j + 1;
            }
            pieces.push(digest);
            k = k + 1;
        }
        Ok(pieces)
    }

    /// A decoded integer as a size: non-negative and within `u64`.
    fn to_size(value: i128) -> (r: Result<u64, TorrentError>)
        ensures
            r matches Ok(v) ==> v == value,
            r is Err <==> !(0 <= value <= u64::MAX),
    {
        if value < 0 || value > 0xffff_ffff_ffff_ffff {
            return Err(malformed("could not convert a decoded integer to an unsigned size"));
        }
        Ok(value as u64)
    }

    /// The sum of the file lengths, or none where it overflows.
    fn sum_lengths(files: &Vec<File>) -> (r: Option<u64>)
        ensures
            match r {
                Some(t) => t == files_total(files@),
                None => files_total(files@) > u64::MAX,
            },
    {
        let mut total: u64 = 0;
        let mut i: usize = 0;
        while i < files.len()
            invariant
                i <= files@.len(),
                total == files_total(files@.subrange(0, i as int)),
            decreases files.len() - i,
        {
            proof {
                assert(files@.subrange(0, i + 1).drop_last() =~= files@.subrange(0, i as int));
            }
            match total.checked_add(files[i].length) {
                Some(t) => {
                    total = t;
                },
                None => {
                    proof {
                        lemma_files_total_monotone(files@, i + 1);
                    }
                    return None;
                },
            }
            i = i + 1;
        }
        proof {
            assert(files@.subrange(0, files@.len() as int) =~= files@);
        }
        Some(total)
    }

    fn validate_piece_length(total_length: u64, piece_length: u64, pieces: &Vec<Vec<u8>>) -> (r: bool)
        requires
            piece_length > 0,
        ensures
            r == (pieces@.len() == pieces_for(total_length as int, piece_length as int)),
    {
        let whole = total_length / piece_length;
        let count: u128 = if total_length % piece_length == 0 {
            whole as u128
        } else {
            whole as u128 + 1
        };
        pieces.len() as u128 == count
    }

    fn evaluate_announce(announce: &BencodeList) -> (r: Result<Vec<Vec<String>>, TorrentError>)
        ensures
            r is Ok <==> announce_list_ok(Some(announce@)),
            r matches Ok(v) ==> v@.len() == announce.value@.len(),
    {
        let mut tiers: Vec<Vec<String>> = Vec::new();
        let mut i: usize = 0;
        while i < announce.value.len()
            invariant
                i <= announce.value@.len(),
                tiers@.len() == i,
                list_items(announce@).len() == announce.value@.len(),
                forall|j: int| 0 <= j < i ==> texts_ok(#[trigger] list_items(announce@)[j]),
            decreases announce.value.len() - i,
        {
            proof {
                assert(list_items(announce@)[i as int] == announce.value@[i as int]@);
            }
            match &announce.value[i] {
                BencodeToken::List(tier) => {
                    let trackers = Torrent::evaluate_texts(tier)?;
                    tiers.push(trackers);
                },
                _ => {
                    return Err(malformed("unexpected token in the announce list: expected a list"));
                },
            }
            i = i + 1;
        }
        Ok(tiers)
    }

    /// A list of UTF-8 strings.
    fn evaluate_texts(list: &BencodeList) -> (r: Result<Vec<String>, TorrentError>)
        ensures
            r is Ok <==> texts_ok(list@),
            r matches Ok(v) ==> v@.len() == list.value@.len() && forall|i: int|
                0 <= i < v@.len() ==> utf8_text(list_items(list@)[i]->Str_0.value) == Some((#[trigger] v@[i])@),
    {
        let mut texts: Vec<String> = Vec::new();
        let mut i: usize = 0;
        while i < list.value.len()
            invariant
                i <= list.value@.len(),
                texts@.len() == i,
                list_items(list@).len() == list.value@.len(),
                forall|j: int| 0 <= j < i ==> text_ok(#[trigger] list_items(list@)[j]),
                forall|j: int|
                    0 <= j < i ==> utf8_text(list_items(list@)[j]->Str_0.value) == Some((#[trigger] texts@[j])@),
            decreases list.value.len() - i,
        {
            proof {
                assert(list_items(list@)[i as int] == list.value@[i as int]@);
            }
            match &list.value[i] {
                BencodeToken::String(s) => match text_from_utf8(s.value.as_slice()) {
                    Some(text) => {
                        texts.push(text);
                    },
                    None => {
                        return Err(malformed("a string in a list is not UTF-8"));
                    },
                },
                _ => {
                    return Err(malformed("unexpected token in a list: expected a string"));
                },
            }
            i = i + 1;
        }
        Ok(texts)
    }

    fn evaluate_files(files: &BencodeList) -> (r: Result<Vec<File>, TorrentError>)
        ensures
            r is Ok <==> files_ok(files@),
            r matches Ok(v) ==> files_match(v@, list_items(files@)),
            r matches Ok(v) ==> v@.len() == files.value@.len() && forall|i: int|
                0 <= i < v@.len() ==> (#[trigger] v@[i]).path@.len() > 0 && size_value(
                    dict_get(list_items(files@)[i], "length".spec_bytes()),
                ) == Some(v@[i].length as int),
    {
        let mut result: Vec<File> = Vec::new();
        let mut i: usize = 0;
        while i < files.value.len()
            invariant
                i <= files.value@.len(),
                result@.len() == i,
                list_items(files@).len() == files.value@.len(),
                forall|j: int| 0 <= j < i ==> file_ok(#[trigger] list_items(files@)[j]),
                forall|j: int| 0 <= j < i ==> file_matches(#[trigger] result@[j], list_items(files@)[j]),
                forall|j: int|
                    0 <= j < i ==> (#[trigger] result@[j]).path@.len() > 0 && size_value(
                        dict_get(list_items(files@)[j], "length".spec_bytes()),
                    ) == Some(result@[j].length as int),
            decreases files.value.len() - i,
        {
            proof {
                assert(list_items(files@)[i as int] == files.value@[i as int]@);
            }
            match &files.value[i] {
                BencodeToken::Dictionary(file) => {
                    let entry = Torrent::evaluate_file(file)?;
                    result.push(entry);
                },
                _ => {
                    return Err(malformed("unexpected token in the files list: expected a dictionary"));
                },
            }
            i = i + 1;
        }
        Ok(result)
    }

    fn evaluate_file(file: &BencodeDictionary) -> (r: Result<File, TorrentError>)
        ensures
            r is Ok <==> file_ok(file@),
            r matches Ok(f) ==> file_matches(f, file@),
            r matches Ok(f) ==> f.path@.len() > 0 && size_value(dict_get(file@, "length".spec_bytes())) == Some(
                f.length as int,
            ),
    {
        proof {
            lemma_entry_model(file, "length".spec_bytes());
            lemma_entry_model(file, "path".spec_bytes());
        }
        let length = match file.find_integer_value("length".as_bytes()) {
            Ok(value) => Torrent::to_size(value.value)?,
            Err(err) => {
                return Err(Torrent::convert_error(err));
            },
        };
        let path = match file.find_list_value("path".as_bytes()) {
            Ok(value) => Torrent::evaluate_texts(value)?,
            Err(err) => {
                return Err(Torrent::convert_error(err));
            },
        };
        if path.len() == 0 {
            return Err(malformed("a file cannot have an empty path"));
        }
        Ok(File { length, path })
    }

    fn convert_error(err: BencodeError) -> (r: TorrentError)
        ensures
            r.kind == TorrentErrorKind::MalformedData,
            r.message@ == err.message@,
    {
        let kind = match err.kind {
            BencodeErrorKind::MalformedData => TorrentErrorKind::MalformedData,
        };
        TorrentError::new(kind, err.message)
    }
}

} // verus!
