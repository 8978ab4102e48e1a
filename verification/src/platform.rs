//! What the system reports about boots, directories and their entries, turned into the values
//! that the inventory compares.

use vstd::prelude::*;
use crate::inventory::{EntryType, Epoch};
use crate::path::{copy_bytes, DOT};

verus! {

/// The separator in the text form of a boot session identifier.
pub const HYPHEN: u8 = 45;

/// The length of a boot session identifier with its separators.
pub const BOOT_TEXT_LEN: usize = 36;

/// The length of a boot session identifier without its separators.
pub const BOOT_LEN: usize = 32;

/// A hexadecimal digit of either case.
pub open spec fn hex_digit(byte: u8) -> bool {
    (48 <= byte <= 57) || (65 <= byte <= 70) || (97 <= byte <= 102)
}

/// Without the hyphens.
pub open spec fn without_hyphens(text: Seq<u8>) -> Seq<u8>
    decreases text.len(),
{
    if text.len() == 0 {
        Seq::empty()
    } else if text.last() == HYPHEN {
        without_hyphens(text.drop_last())
    } else {
        without_hyphens(text.drop_last()).push(text.last())
    }
}

/// The digits of a reported boot session identifier, if it is well formed: a text of the usual
/// length with a final NUL, all hexadecimal digits but for the hyphens.
pub open spec fn boot_digits(reported: Seq<u8>) -> Option<Seq<u8>> {
    let digits = without_hyphens(reported.take(BOOT_TEXT_LEN as int));
    if reported[BOOT_TEXT_LEN as int] == 0 && digits.len() == BOOT_LEN && (forall|i: int|
        0 <= i < digits.len() ==> hex_digit(#[trigger] digits[i])) {
        Some(digits)
    } else {
        None
    }
}

/// The epoch that a reported boot session identifier and mount counter stand for.
pub fn reported_epoch(reported: &[u8; 37], mounts: u32) -> (epoch: Option<Epoch>)
    ensures
        match epoch {
            Some(epoch) => boot_digits(reported@) == Some(epoch.boot@) && epoch.mounts == mounts,
            None => boot_digits(reported@) is None,
        },
{
    if reported[36] != 0 {
        return None;
    }
    let ghost text = reported@.take(BOOT_TEXT_LEN as int);
    let ghost digits = without_hyphens(text);
    let mut boot: [u8; 32] = [0u8;32];
    let mut hex = true;
    let mut count: usize = 0;
    let mut i: usize = 0;
    assert(text.take(0) =~= Seq::empty());
    while i < 36
        invariant
            i <= 36,
            text == reported@.take(BOOT_TEXT_LEN as int),
            count <= i,
            count == without_hyphens(text.take(i as int)).len(),
            boot@.len() == 32,
            forall|k: int|
                0 <= k < count && k < 32 ==> boot@[k] == #[trigger] without_hyphens(
                    text.take(i as int),
                )[k],
            hex == forall|k: int|
                0 <= k < count ==> hex_digit(#[trigger] without_hyphens(text.take(i as int))[k]),
        decreases 36 - i,
    {
        let byte = reported[i];
        let ghost shorter = without_hyphens(text.take(i as int));
        let ghost longer = without_hyphens(text.take(i + 1));
        proof {
            assert(text.take(i + 1).drop_last() =~= text.take(i as int));
            assert(text.take(i + 1).last() == byte);
        }
        if byte != HYPHEN {
            assert(longer == shorter.push(byte));
            assert(longer[count as int] == byte);
            let digit = (48 <= byte && byte <= 57) || (65 <= byte && byte <= 70) || (97 <= byte
                && byte <= 102);
            proof {
                assert forall|k: int| 0 <= k < count implies longer[k] == shorter[k] by {}
            }
            hex = hex && digit;
            proof {
                if hex {
                    assert forall|k: int| 0 <= k < count + 1 implies hex_digit(
                        #[trigger] longer[k],
                    ) by {
                        if k < count {
                            assert(hex_digit(shorter[k]));
                        }
                    }
                } else if !digit {
                    assert(!hex_digit(longer[count as int]));
                } else {
                    let k = choose|k: int| 0 <= k < count && !hex_digit(#[trigger] shorter[k]);
                    assert(!hex_digit(longer[k]));
                }
            }
            if count < 32 {
                boot[count] = byte;
            }
            count += 1;
        }
        i += 1;
    }
    assert(text.take(36) =~= text);
    if !hex || count != 32 {
        return None;
    }
    assert(boot@ =~= digits);
    Some(Epoch { boot, mounts })
}

/// Whether an attribute that was asked for came back: the reply has the expected length, and
/// the attribute is among those returned.
pub fn attribute_returned(length: u32, expected: u32, returned: u32, wanted: u32) -> (result: bool)
    ensures
        result == (length == expected && returned & wanted != 0),
{
    length == expected && returned & wanted != 0
}

/// What to do with an entry that the system lists.
#[derive(Clone, Copy, Debug, PartialEq, Eq, Structural)]
pub enum Listed {
    /// It stands for the directory itself or its parent.
    Skipped,
    /// Its kind is known.
    Known(EntryType),
    /// Its kind has to be read from its metadata.
    Unknown,
}

/// `DT_UNKNOWN`
pub const KIND_UNKNOWN: u8 = 0;

/// `DT_DIR`
pub const KIND_DIRECTORY: u8 = 4;

/// `DT_REG`
pub const KIND_FILE: u8 = 8;

/// `DT_LNK`
pub const KIND_SYMLINK: u8 = 10;

/// What a listed name and its kind byte mean.
pub open spec fn listed_as(name: Seq<u8>, kind: u8) -> Listed {
    if name == seq![DOT] || name == seq![DOT, DOT] {
        Listed::Skipped
    } else if kind == KIND_FILE {
        Listed::Known(EntryType::File)
    } else if kind == KIND_DIRECTORY {
        Listed::Known(EntryType::Directory)
    } else if kind == KIND_SYMLINK {
        Listed::Known(EntryType::Symlink)
    } else if kind == KIND_UNKNOWN {
        Listed::Unknown
    } else {
        Listed::Known(EntryType::Other)
    }
}

/// Decides what to do with an entry that the system lists under `name` with this kind byte.
pub fn classify_listed(name: &[u8], kind: u8) -> (listed: Listed)
    ensures
        listed == listed_as(name@, kind),
{
    proof {
        assert(seq![DOT].len() == 1 && seq![DOT][0] == DOT);
        assert(seq![DOT, DOT].len() == 2 && seq![DOT, DOT][0] == DOT && seq![DOT, DOT][1] == DOT);
    }
    if name.len() == 1 && name[0] == DOT {
        assert(name@ =~= seq![DOT]);
        return Listed::Skipped;
    }
    if name.len() == 2 && name[0] == DOT && name[1] == DOT {
        assert(name@ =~= seq![DOT, DOT]);
        return Listed::Skipped;
    }
    if kind == KIND_FILE {
        Listed::Known(EntryType::File)
    } else if kind == KIND_DIRECTORY {
        Listed::Known(EntryType::Directory)
    } else if kind == KIND_SYMLINK {
        Listed::Known(EntryType::Symlink)
    } else if kind == KIND_UNKNOWN {
        Listed::Unknown
    } else {
        Listed::Known(EntryType::Other)
    }
}

/// Collects a listing entry by entry, and gives it up at the first entry whose kind cannot be
/// read.
pub struct ListingReader {
    names: Vec<(Vec<u8>, EntryType)>,
    broken: bool,
}

/// One entry as the system reports it: its name, its kind byte, and the kind that its metadata
/// shows if that was read.
pub struct ReportedEntry {
    pub name: Seq<u8>,
    pub kind: u8,
    pub metadata: Option<EntryType>,
}

/// The listing after one more entry; none once some kind is unknown.
pub open spec fn listing_with(
    listing: Option<Seq<(Seq<u8>, EntryType)>>,
    entry: ReportedEntry,
) -> Option<Seq<(Seq<u8>, EntryType)>> {
    match listing {
        None => None,
        Some(names) => match listed_as(entry.name, entry.kind) {
            Listed::Skipped => Some(names),
            Listed::Known(kind) => Some(names.push((entry.name, kind))),
            Listed::Unknown => match entry.metadata {
                Some(kind) => Some(names.push((entry.name, kind))),
                None => None,
            },
        },
    }
}

impl ListingReader {
    /// The listing so far.
    pub closed spec fn listing(&self) -> Option<Seq<(Seq<u8>, EntryType)>> {
        if self.broken {
            None
        } else {
            Some(self.names.deep_view())
        }
    }

    /// Has read nothing.
    pub fn new() -> (reader: Self)
        ensures
            reader.listing() == Some(Seq::<(Seq<u8>, EntryType)>::empty()),
    {
        let names: Vec<(Vec<u8>, EntryType)> = Vec::new();
        assert(names.deep_view() =~= Seq::empty());
        ListingReader { names, broken: false }
    }

    /// Reads one entry. `metadata` counts only where the kind byte leaves the kind open.
    pub fn read(&mut self, name: &[u8], kind: u8, metadata: Option<EntryType>)
        ensures
            final(self).listing() == listing_with(
                old(self).listing(),
                (ReportedEntry { name: name@, kind, metadata }),
            ),
    {
        if self.broken {
            return ;
        }
        let known = match classify_listed(name, kind) {
            Listed::Skipped => {
                return ;
            },
            Listed::Known(known) => known,
            Listed::Unknown => match metadata {
                Some(known) => known,
                None => {
                    self.broken = true;
                    return ;
                },
            },
        };
        let ghost shorter = self.names.deep_view();
        let copy = copy_bytes(name);
        proof {
            crate::model::lemma_bytes_model(copy);
        }
        self.names.push((copy, known));
        assert(self.names.deep_view() =~= shorter.push((name@, known)));
    }

    /// The whole listing, if every kind was known.
    pub fn finish(self) -> (names: Option<Vec<(Vec<u8>, EntryType)>>)
        ensures
            names.deep_view() == self.listing(),
    {
        if self.broken {
            None
        } else {
            Some(self.names)
        }
    }
}

/// What a listed entry is, by the numbers of the system: the directory itself and its parent are
/// skipped, four kinds are told at once, and an entry whose kind was not reported is looked up.
pub proof fn law_listed_kinds(name: Seq<u8>, kind: u8)
    ensures
        listed_as(name, kind) == Listed::Skipped <==> name == seq![46u8] || name == seq![46u8, 46u8],
        name != seq![46u8] && name != seq![46u8, 46u8] ==> {
            &&& kind == 8 ==> listed_as(name, kind) == Listed::Known(EntryType::File)
            &&& kind == 4 ==> listed_as(name, kind) == Listed::Known(EntryType::Directory)
            &&& kind == 10 ==> listed_as(name, kind) == Listed::Known(EntryType::Symlink)
            &&& kind == 0 ==> listed_as(name, kind) == Listed::Unknown
            &&& kind != 8 && kind != 4 && kind != 10 && kind != 0 ==> listed_as(name, kind)
                == Listed::Known(EntryType::Other)
        },
{
}

/// A listing holds every entry that is not skipped, in the order in which they were read, with
/// its kind as reported or as looked up. It is lost for good where a kind cannot be told.
pub proof fn law_listings_hold_every_entry(
    names: Seq<(Seq<u8>, EntryType)>,
    entry: ReportedEntry,
)
    ensures
        ({
            let after = listing_with(Some(names), entry);
            let skipped = entry.name == seq![46u8] || entry.name == seq![46u8, 46u8];
            &&& listing_with(None, entry) is None
            &&& skipped ==> after == Some(names)
            &&& !skipped && entry.kind == 8 ==> after == Some(
                names.push((entry.name, EntryType::File)),
            )
            &&& !skipped && entry.kind == 4 ==> after == Some(
                names.push((entry.name, EntryType::Directory)),
            )
            &&& !skipped && entry.kind == 10 ==> after == Some(
                names.push((entry.name, EntryType::Symlink)),
            )
            &&& !skipped && entry.kind == 0 && entry.metadata is Some ==> after == Some(
                names.push((entry.name, entry.metadata.unwrap())),
            )
            &&& !skipped && entry.kind == 0 && entry.metadata is None ==> after is None
            &&& !skipped && entry.kind != 8 && entry.kind != 4 && entry.kind != 10 && entry.kind
                != 0 ==> after == Some(names.push((entry.name, EntryType::Other)))
        }),
{
}

/// The digits of a text are what is left of it without its hyphens, in their order.
pub proof fn law_hyphens_are_left_out(text: Seq<u8>)
    ensures
        without_hyphens(text) == text.filter(|byte: u8| byte != 45),
    decreases text.len(),
{
    reveal(Seq::filter);
    if text.len() > 0 {
        law_hyphens_are_left_out(text.drop_last());
    }
}

/// A boot is told by the 32 hexadecimal digits of a text of 36 characters with a zero behind it,
/// and by nothing else.
pub proof fn law_boots_are_told_by_their_digits(reported: Seq<u8>, i: int)
    requires
        reported.len() == 37,
    ensures
        ({
            let digits = reported.take(36).filter(|byte: u8| byte != 45);
            &&& boot_digits(reported) is Some ==> boot_digits(reported) == Some(digits)
                && digits.len() == 32 && reported[36] == 0
            &&& boot_digits(reported) is Some && 0 <= i < 32 ==> (48 <= digits[i] <= 57) || (65
                <= digits[i] <= 70) || (97 <= digits[i] <= 102)
            &&& digits.len() == 32 && reported[36] == 0 && (forall|k: int|
                0 <= k < 32 ==> (48 <= #[trigger] digits[k] <= 57) || (65 <= digits[k] <= 70) || (97
                    <= digits[k] <= 102)) ==> boot_digits(reported) == Some(digits)
        }),
{
    law_hyphens_are_left_out(reported.take(36));
}

} // verus!
