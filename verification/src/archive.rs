//! Archives of arrays: `.npz` files, which are ZIP archives of `.npy` files.

use vstd::prelude::*;

use crate::npz::{npy_array, parse_npy_bytes, Dtype, LoadError, NpyArray};
use crate::text::{chars_of, same_chars, string_of};

verus! {

/// An archive of the `zip` crate.
#[verifier::external_type_specification]
#[verifier::external_body]
#[verifier::reject_recursive_types(R)]
pub struct ExZipArchive<R>(zip::ZipArchive<R>);

/// A reader of bytes in memory.
#[verifier::external_type_specification]
#[verifier::external_body]
#[verifier::reject_recursive_types(T)]
pub struct ExCursor<T>(std::io::Cursor<T>);

/// The error of the `zip` crate.
#[verifier::external_type_specification]
#[verifier::external_body]
pub struct ExZipError(zip::result::ZipError);

/// What the ZIP archive in `bytes` holds: for each entry its name and its content, or `None`
/// where it cannot be read. `None` where the bytes are no archive.
pub uninterp spec fn zip_contents(bytes: Seq<u8>) -> Option<Seq<Option<(Seq<char>, Seq<u8>)>>>;

/// What an open archive holds.
pub uninterp spec fn archive_entries(
    archive: zip::ZipArchive<std::io::Cursor<Vec<u8>>>,
) -> Seq<Option<(Seq<char>, Seq<u8>)>>;

/// `zip::ZipArchive::new` on bytes in memory: what it opens, and whether it does, depends on the
/// bytes alone.
#[verifier::external_body]
fn open_archive(bytes: Vec<u8>) -> (r: Result<
    zip::ZipArchive<std::io::Cursor<Vec<u8>>>,
    zip::result::ZipError,
>)
    ensures
        match r {
            Ok(archive) => zip_contents(bytes@) == Some(archive_entries(archive)),
            Err(_) => zip_contents(bytes@) is None,
        },
{
    zip::ZipArchive::new(std::io::Cursor::new(bytes))
}

/// `zip::ZipArchive::len`: the number of entries.
#[verifier::external_body]
fn entry_count(archive: &zip::ZipArchive<std::io::Cursor<Vec<u8>>>) -> (r: usize)
    ensures
        r == archive_entries(*archive).len(),
{
    archive.len()
}

/// `zip::ZipArchive::by_index` on an index below the number of entries, with the entry's name and
/// its content read to the end: gives what the archive holds there, and leaves the archive as it
/// is.
#[verifier::external_body]
fn read_entry(archive: &mut zip::ZipArchive<std::io::Cursor<Vec<u8>>>, i: usize) -> (r: Result<
    (String, Vec<u8>),
    zip::result::ZipError,
>)
    requires
        i < archive_entries(*old(archive)).len(),
    ensures
        archive_entries(*final(archive)) == archive_entries(*old(archive)),
        match r {
            Ok((name, content)) => archive_entries(*old(archive))[i as int] == Some(
                (name@, content@),
            ),
            Err(_) => archive_entries(*old(archive))[i as int] is None,
        },
{
    let mut entry = archive.by_index(i)?;
    let name = entry.name().to_string();
    let mut content = Vec::new();
    std::io::Read::read_to_end(&mut entry, &mut content)?;
    Ok((name, content))
}

/// An array with its name.
pub type NamedArray = (Seq<char>, Dtype, Seq<i32>, Seq<u8>);

/// A file's name without the ending `.npy`, where it has it.
pub open spec fn array_name(file: Seq<char>) -> Seq<char> {
    let n = file.len();
    if n >= 4 && file.skip(n - 4) == ".npy"@ {
        file.take(n - 4)
    } else {
        file
    }
}

/// The array that an entry holds.
pub open spec fn entry_array(file: Seq<char>, content: Seq<u8>) -> Result<NamedArray, LoadError> {
    match npy_array(content) {
        Ok((dtype, shape, data)) => Ok((array_name(file), dtype, shape, data)),
        Err(e) => Err(e),
    }
}

/// The arrays that a list of entries holds, in order; or the first error.
pub open spec fn entry_arrays(entries: Seq<Option<(Seq<char>, Seq<u8>)>>) -> Result<
    Seq<NamedArray>,
    LoadError,
>
    decreases entries.len(),
{
    if entries.len() == 0 {
        Ok(seq![])
    } else {
        match entry_arrays(entries.drop_last()) {
            Err(e) => Err(e),
            Ok(before) => match entries.last() {
                None => Err(LoadError::Archive),
                Some((file, content)) => match entry_array(file, content) {
                    Ok(array) => Ok(before.push(array)),
                    Err(e) => Err(e),
                },
            },
        }
    }
}

/// The arrays of an archive; `None` stands for what is no archive.
pub open spec fn archive_arrays(contents: Option<Seq<Option<(Seq<char>, Seq<u8>)>>>) -> Result<
    Seq<NamedArray>,
    LoadError,
> {
    match contents {
        Some(entries) => entry_arrays(entries),
        None => Err(LoadError::Archive),
    }
}

/// Arrays with their names, taken by their contents.
pub open spec fn array_views(arrays: Seq<(String, NpyArray)>) -> Seq<NamedArray> {
    arrays.map_values(|a: (String, NpyArray)| (a.0@, a.1.dtype, a.1.shape@, a.1.data@))
}

/// An error of an entry is the error of every list of entries that starts with it.
proof fn lemma_first_error(all: Seq<Option<(Seq<char>, Seq<u8>)>>, n: int)
    requires
        0 <= n <= all.len(),
        entry_arrays(all.take(n)) is Err,
    ensures
        entry_arrays(all) == entry_arrays(all.take(n)),
    decreases all.len() - n,
{
    if n < all.len() {
        assert(all.take(n + 1).drop_last() =~= all.take(n));
        lemma_first_error(all, n + 1);
    } else {
        assert(all.take(n) =~= all);
    }
}

/// The name of the array in a file.
pub fn name_of_array(file: &str) -> (r: String)
    ensures
        r@ == array_name(file@),
{
    let chars = chars_of(file);
    let ending = chars_of(".npy");
    proof {
        reveal_strlit(".npy");
    }
    let n: usize = chars.len();
    if n >= 4 {
        assert(chars@.subrange(n - 4, n as int) =~= chars@.skip(n - 4));
        if same_chars(&chars[n - 4..n], &ending) {
            assert(chars@.subrange(0, n - 4) =~= chars@.take(n - 4));
            return string_of(&chars[0..n - 4]);
        }
    }
    string_of(&chars)
}

/// Reads the array that an entry holds.
pub fn array_from_entry(file: &str, content: &[u8]) -> (r: Result<(String, NpyArray), LoadError>)
    ensures
        match r {
            Ok((name, a)) => entry_array(file@, content@) == Ok::<_, LoadError>(
                (name@, a.dtype, a.shape@, a.data@),
            ),
            Err(e) => entry_array(file@, content@) == Err::<NamedArray, _>(e),
        },
{
    match parse_npy_bytes(content) {
        Ok(a) => Ok((name_of_array(file), a)),
        Err(e) => Err(e),
    }
}

/// Reads the arrays of an archive, in its order, each under its file's name without `.npy`.
pub fn load_npz(bytes: Vec<u8>) -> (r: Result<Vec<(String, NpyArray)>, LoadError>)
    ensures
        match r {
            Ok(arrays) => archive_arrays(zip_contents(bytes@)) == Ok::<_, LoadError>(
                array_views(arrays@),
            ),
            Err(e) => archive_arrays(zip_contents(bytes@)) == Err::<Seq<NamedArray>, _>(e),
        },
{
    let mut archive = match open_archive(bytes) {
        Ok(archive) => archive,
        Err(_) => {
            return Err(LoadError::Archive);
        },
    };
    let ghost all = archive_entries(archive);
    let n: usize = entry_count(&archive);
    let mut arrays: Vec<(String, NpyArray)> = Vec::new();
    let mut i: usize = 0;
    assert(array_views(arrays@) =~= Seq::<NamedArray>::empty());
    while i < n
        invariant
            i <= n,
            n == all.len(),
            zip_contents(bytes@) == Some(all),
            archive_entries(archive) == all,
            entry_arrays(all.take(i as int)) == Ok::<_, LoadError>(array_views(arrays@)),
        decreases n - i,
    {
        assert(all.take(i + 1).drop_last() =~= all.take(i as int));
        assert(all.take(i + 1).last() == all[i as int]);
        match read_entry(&mut archive, i) {
            Ok((file, content)) => {
                match array_from_entry(file.as_str(), &content) {
                    Ok(entry) => {
                        let ghost before = array_views(arrays@);
                        arrays.push(entry);
                        assert(array_views(arrays@) =~= before.push(
                            (entry.0@, entry.1.dtype, entry.1.shape@, entry.1.data@),
                        ));
                    },
                    Err(e) => {
                        proof {
                            lemma_first_error(all, i + 1);
                        }
                        return Err(e);
                    },
                }
            },
            Err(_) => {
                proof {
                    lemma_first_error(all, i + 1);
                }
                return Err(LoadError::Archive);
            },
        }
        i += 1;
    }
    assert(all.take(i as int) =~= all);
    Ok(arrays)
}

} // verus!
