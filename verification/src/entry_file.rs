//! The file of a loader entry: how it is written and how it is read.

use crate::architecture::Architecture;
use crate::artifact::{artifact_path, ArtifactKind};
use crate::digest::hex;
use crate::entry::{decimal, entry_of, to_decimal, LoaderEntry};
use crate::generation::{joined, ResolvedView};
use crate::number::{lemma_decimal_parses, lemma_parses_decimal, parse_number, parsed_number};
use crate::state::EntryView;
use vstd::prelude::*;
use vstd::string::{StrSliceExecFns, StringExecFns};

verus! {

/// One line of an entry's file: the key, the value and the end of the line.
pub open spec fn line(key: Seq<char>, value: Seq<char>) -> Seq<char> {
    key + value + seq!['\n']
}

/// The file of an entry, as the boot loader reads it: the title, the version,
/// the sort key, the stub to start and the options, each on a line of its own
/// behind its key; and, as remarks to the boot loader, the kernel and the
/// initrd that the stub loads. Paths are written from the root of the
/// partition.
pub open spec fn rendered(entry: EntryView) -> Seq<char> {
    line("title "@, entry.title) + line("version "@, decimal(entry.version as nat)) + line(
        "sort-key "@,
        entry.sort_key,
    ) + line("efi /"@, entry.stub) + line("options "@, entry.options) + line(
        "# kernel /"@,
        entry.kernel,
    ) + line("# initrd /"@, entry.initrd)
}

/// Whether a text holds no end of line.
pub open spec fn one_line(text: Seq<char>) -> bool {
    forall|i: int| 0 <= i < text.len() ==> #[trigger] text[i] != '\n'
}

/// Whether an entry can be written to a file and read again: none of its
/// texts holds an end of line.
pub open spec fn writable(entry: EntryView) -> bool {
    &&& one_line(entry.title)
    &&& one_line(entry.sort_key)
    &&& one_line(entry.stub)
    &&& one_line(entry.options)
    &&& one_line(entry.kernel)
    &&& one_line(entry.initrd)
}

/// Where the line ends that holds the place `from`: the place of the first
/// end of line from there on, or the length of the text if there is none.
pub open spec fn line_end(text: Seq<char>, from: int) -> int
    decreases text.len() - from,
{
    if from < 0 || from >= text.len() {
        text.len() as int
    } else if text[from] == '\n' {
        from
    } else {
        line_end(text, from + 1)
    }
}

/// A value read from a line, and the place behind the line.
pub struct Field {
    pub value: Seq<char>,
    pub next: int,
}

/// The value of the line that starts at `from` with `key`, and the place
/// behind the line; nothing if the line does not start with the key or does
/// not end.
pub open spec fn field(text: Seq<char>, from: int, key: Seq<char>) -> Option<Field> {
    if 0 <= from && from + key.len() <= text.len() && text.subrange(from, from + key.len()) == key
        && line_end(text, from + key.len()) < text.len() {
        Some(
            Field {
                value: text.subrange(from + key.len(), line_end(text, from + key.len())),
                next: line_end(text, from + key.len()) + 1,
            },
        )
    } else {
        None
    }
}

/// The entry that a file holds, if it is the file of an entry.
pub open spec fn parsed(text: Seq<char>) -> Option<EntryView> {
    let title = field(text, 0, "title "@);
    if title is None {
        None
    } else {
        let version = field(text, title->0.next, "version "@);
        if version is None || parsed_number(version->0.value) is None {
            None
        } else {
            let sort_key = field(text, version->0.next, "sort-key "@);
            if sort_key is None {
                None
            } else {
                let stub = field(text, sort_key->0.next, "efi /"@);
                if stub is None {
                    None
                } else {
                    let options = field(text, stub->0.next, "options "@);
                    if options is None {
                        None
                    } else {
                        let kernel = field(text, options->0.next, "# kernel /"@);
                        if kernel is None {
                            None
                        } else {
                            let initrd = field(text, kernel->0.next, "# initrd /"@);
                            if initrd is None || initrd->0.next != text.len() {
                                None
                            } else {
                                Some(
                                    EntryView {
                                        version: parsed_number(version->0.value)->0,
                                        title: title->0.value,
                                        sort_key: sort_key->0.value,
                                        stub: stub->0.value,
                                        kernel: kernel->0.value,
                                        initrd: initrd->0.value,
                                        options: options->0.value,
                                    },
                                )
                            }
                        }
                    }
                }
            }
        }
    }
}

/// The end of a line lies at or behind the place asked from, within the
/// text; no end of line stands between, and one stands at the end unless
/// the text is over.
pub proof fn lemma_line_end(text: Seq<char>, from: int)
    requires
        0 <= from <= text.len(),
    ensures
        from <= line_end(text, from) <= text.len(),
        forall|i: int| from <= i < line_end(text, from) ==> #[trigger] text[i] != '\n',
        line_end(text, from) < text.len() ==> text[line_end(text, from)] == '\n',
    decreases text.len() - from,
{
    if from < text.len() && text[from] != '\n' {
        lemma_line_end(text, from + 1);
    }
}

/// The line ends at the first end of line.
pub proof fn lemma_line_end_at(text: Seq<char>, from: int, end: int)
    requires
        0 <= from <= end < text.len(),
        forall|i: int| from <= i < end ==> #[trigger] text[i] != '\n',
        text[end] == '\n',
    ensures
        line_end(text, from) == end,
    decreases end - from,
{
    if from < end {
        assert(text[from] != '\n');
        lemma_line_end_at(text, from + 1, end);
    }
}

/// A field's line is the part of the text from the start of the field to
/// the place behind it.
pub proof fn lemma_field_line(text: Seq<char>, from: int, key: Seq<char>)
    requires
        field(text, from, key) is Some,
    ensures
        from < field(text, from, key)->0.next <= text.len(),
        text.subrange(from, field(text, from, key)->0.next) == line(
            key,
            field(text, from, key)->0.value,
        ),
        one_line(field(text, from, key)->0.value),
{
    let start = from + key.len();
    lemma_line_end(text, start);
    let end = line_end(text, start);
    let value = text.subrange(start, end);
    assert(text.subrange(from, end + 1) =~= text.subrange(from, start) + value + seq!['\n']);
    assert forall|i: int| 0 <= i < value.len() implies #[trigger] value[i] != '\n' by {
        assert(value[i] == text[start + i]);
    }
}

/// A line in a text is read as the field of its key: where the text holds,
/// from `from` on, a line of `key` and a value without an end of line, the
/// field there is that value, and the place behind it is the end of the line.
pub proof fn lemma_line_field(text: Seq<char>, from: int, key: Seq<char>, value: Seq<char>)
    requires
        0 <= from,
        from + line(key, value).len() <= text.len(),
        text.subrange(from, from + line(key, value).len()) == line(key, value),
        one_line(value),
    ensures
        field(text, from, key) == Some(Field { value, next: from + line(key, value).len() }),
{
    let whole = line(key, value);
    let start = from + key.len();
    let end = start + value.len();
    assert forall|i: int| 0 <= i < whole.len() implies text[from + i] == #[trigger] whole[i] by {
        assert(text.subrange(from, from + whole.len())[i] == text[from + i]);
    }
    assert(text.subrange(from, start) =~= key) by {
        assert forall|i: int| 0 <= i < key.len() implies text.subrange(from, start)[i]
            == key[i] by {
            assert(whole[i] == key[i]);
        }
    }
    assert forall|i: int| start <= i < end implies #[trigger] text[i] != '\n' by {
        assert(whole[i - from] == value[i - start]);
    }
    assert(text[end] == '\n') by {
        assert(whole[end - from] == '\n');
    }
    lemma_line_end_at(text, start, end);
    assert(text.subrange(start, end) =~= value) by {
        assert forall|i: int| 0 <= i < value.len() implies text.subrange(start, end)[i]
            == value[i] by {
            assert(whole[key.len() + i] == value[i]);
        }
    }
}

/// What is read from a file, written again, is the file.
pub proof fn lemma_parse_render(text: Seq<char>)
    requires
        parsed(text) is Some,
    ensures
        rendered(parsed(text)->0) == text,
        writable(parsed(text)->0),
{
    let title = field(text, 0, "title "@);
    lemma_field_line(text, 0, "title "@);
    let version = field(text, title->0.next, "version "@);
    lemma_field_line(text, title->0.next, "version "@);
    lemma_parses_decimal(version->0.value);
    let sort_key = field(text, version->0.next, "sort-key "@);
    lemma_field_line(text, version->0.next, "sort-key "@);
    let stub = field(text, sort_key->0.next, "efi /"@);
    lemma_field_line(text, sort_key->0.next, "efi /"@);
    let options = field(text, stub->0.next, "options "@);
    lemma_field_line(text, stub->0.next, "options "@);
    let kernel = field(text, options->0.next, "# kernel /"@);
    lemma_field_line(text, options->0.next, "# kernel /"@);
    let initrd = field(text, kernel->0.next, "# initrd /"@);
    lemma_field_line(text, kernel->0.next, "# initrd /"@);
    assert(text =~= text.subrange(0, title->0.next) + text.subrange(title->0.next, version->0.next)
        + text.subrange(version->0.next, sort_key->0.next) + text.subrange(sort_key->0.next, stub->0.next)
        + text.subrange(stub->0.next, options->0.next) + text.subrange(options->0.next, kernel->0.next)
        + text.subrange(kernel->0.next, initrd->0.next));
}

/// An entry written to a file is read from it again as it was, if none of
/// its texts holds an end of line.
pub proof fn lemma_render_parse(entry: EntryView)
    requires
        writable(entry),
    ensures
        parsed(rendered(entry)) == Some(entry),
{
    let text = rendered(entry);
    let digits = decimal(entry.version as nat);
    lemma_decimal_parses(entry.version as nat);
    assert(one_line(digits)) by {
        assert forall|i: int| 0 <= i < digits.len() implies #[trigger] digits[i] != '\n' by {
            assert(crate::number::digit_of(digits[i]) is Some);
        }
    }
    let title_line = line("title "@, entry.title);
    let version_line = line("version "@, digits);
    let sort_key_line = line("sort-key "@, entry.sort_key);
    let stub_line = line("efi /"@, entry.stub);
    let options_line = line("options "@, entry.options);
    let kernel_line = line("# kernel /"@, entry.kernel);
    let initrd_line = line("# initrd /"@, entry.initrd);
    let after_title = title_line.len() as int;
    let after_version = after_title + version_line.len();
    let after_sort_key = after_version + sort_key_line.len();
    let after_stub = after_sort_key + stub_line.len();
    let after_options = after_stub + options_line.len();
    let after_kernel = after_options + kernel_line.len();
    let after_initrd = after_kernel + initrd_line.len();
    assert(text == title_line + version_line + sort_key_line + stub_line + options_line + kernel_line + initrd_line);
    assert(text.len() == after_initrd);
    assert(text.subrange(0, after_title) =~= title_line);
    assert(text.subrange(after_title, after_version) =~= version_line);
    assert(text.subrange(after_version, after_sort_key) =~= sort_key_line);
    assert(text.subrange(after_sort_key, after_stub) =~= stub_line);
    assert(text.subrange(after_stub, after_options) =~= options_line);
    assert(text.subrange(after_options, after_kernel) =~= kernel_line);
    assert(text.subrange(after_kernel, after_initrd) =~= initrd_line);
    lemma_line_field(text, 0, "title "@, entry.title);
    lemma_line_field(text, after_title, "version "@, digits);
    lemma_line_field(text, after_version, "sort-key "@, entry.sort_key);
    lemma_line_field(text, after_sort_key, "efi /"@, entry.stub);
    lemma_line_field(text, after_stub, "options "@, entry.options);
    lemma_line_field(text, after_options, "# kernel /"@, entry.kernel);
    lemma_line_field(text, after_kernel, "# initrd /"@, entry.initrd);
}


/// Where the file of an entry lies, from the root of the partition.
pub open spec fn entry_path(version: u64) -> Seq<char> {
    "loader/entries/nixos-generation-"@ + decimal(version as nat) + ".conf"@
}

/// Computes `entry_path`.
pub fn path_of_entry(version: u64) -> (path: String)
    ensures
        path@ == entry_path(version),
{
    let mut path = String::from_str("loader/entries/nixos-generation-");
    path.append(to_decimal(version).as_str());
    path.append(".conf");
    path
}

/// Reads the line that starts at `from` with `key`: its value and the place
/// behind it.
fn read_field(text: &str, length: usize, from: usize, key: &str) -> (r: Option<(String, usize)>)
    requires
        length == text@.len(),
        from <= length,
    ensures
        match field(text@, from as int, key@) {
            Some(f) => r matches Some((value, next)) && value@ == f.value && next == f.next,
            None => r is None,
        },
{
    let key_length = key.unicode_len();
    if key_length > length - from {
        return None;
    }
    let start = from + key_length;
    let mut j: usize = 0;
    while j < key_length
        invariant
            j <= key_length,
            key_length == key@.len(),
            length == text@.len(),
            start == from + key_length,
            start <= length,
            forall|k: int| 0 <= k < j ==> text@[from + k] == #[trigger] key@[k],
        decreases key_length - j,
    {
        if text.get_char(from + j) != key.get_char(j) {
            proof {
                let part = text@.subrange(from as int, start as int);
                assert(part[j as int] == text@[from + j]);
            }
            return None;
        }
        j += 1;
    }
    assert(text@.subrange(from as int, start as int) =~= key@);
    let mut end: usize = start;
    while end < length && text.get_char(end) != '\n'
        invariant
            start <= end <= length,
            length == text@.len(),
            forall|i: int| start <= i < end ==> #[trigger] text@[i] != '\n',
        decreases length - end,
    {
        end += 1;
    }
    proof {
        lemma_line_end(text@, start as int);
        if end < length {
            lemma_line_end_at(text@, start as int, end as int);
        }
    }
    if end >= length {
        return None;
    }
    let value = String::from_str(text.substring_char(start, end));
    Some((value, end + 1))
}

impl LoaderEntry {
    /// Writes the file of the entry.
    pub fn render(&self) -> (text: String)
        ensures
            text@ == rendered(self@),
    {
        let mut text = String::from_str("title ");
        text.append(self.title.as_str());
        text.append("\n");
        text.append("version ");
        text.append(to_decimal(self.version).as_str());
        text.append("\n");
        text.append("sort-key ");
        text.append(self.sort_key.as_str());
        text.append("\n");
        text.append("efi /");
        text.append(self.stub.as_str());
        text.append("\n");
        text.append("options ");
        text.append(self.options.as_str());
        text.append("\n");
        text.append("# kernel /");
        text.append(self.kernel.as_str());
        text.append("\n");
        text.append("# initrd /");
        text.append(self.initrd.as_str());
        text.append("\n");
        proof {
            reveal_strlit("\n");
            assert("\n"@ =~= seq!['\n']);
            assert(text@ =~= rendered(self@));
        }
        text
    }

    /// Reads an entry from its file; nothing is read from a text that is not
    /// the file of an entry.
    pub fn parse(text: &str) -> (r: Option<LoaderEntry>)
        ensures
            match r {
                Some(entry) => parsed(text@) == Some(entry@),
                None => parsed(text@) is None,
            },
    {
        let length = text.unicode_len();
        let (title, next) = match read_field(text, length, 0, "title ") {
            Some(found) => found,
            None => { return None; },
        };
        proof {
            lemma_field_line(text@, 0, "title "@);
        }
        let (digits, next) = match read_field(text, length, next, "version ") {
            Some(found) => found,
            None => { return None; },
        };
        let ghost at_version = next as int;
        let version = match parse_number(digits.as_str()) {
            Some(number) => number,
            None => { return None; },
        };
        proof {
            lemma_field_line(text@, field(text@, 0, "title "@)->0.next, "version "@);
        }
        let (sort_key, next) = match read_field(text, length, next, "sort-key ") {
            Some(found) => found,
            None => { return None; },
        };
        proof {
            lemma_field_line(text@, at_version, "sort-key "@);
        }
        let ghost at_sort_key = next as int;
        let (stub, next) = match read_field(text, length, next, "efi /") {
            Some(found) => found,
            None => { return None; },
        };
        proof {
            lemma_field_line(text@, at_sort_key, "efi /"@);
        }
        let ghost at_stub = next as int;
        let (options, next) = match read_field(text, length, next, "options ") {
            Some(found) => found,
            None => { return None; },
        };
        proof {
            lemma_field_line(text@, at_stub, "options "@);
        }
        let ghost at_options = next as int;
        let (kernel, next) = match read_field(text, length, next, "# kernel /") {
            Some(found) => found,
            None => { return None; },
        };
        proof {
            lemma_field_line(text@, at_options, "# kernel /"@);
        }
        let (initrd, next) = match read_field(text, length, next, "# initrd /") {
            Some(found) => found,
            None => { return None; },
        };
        if next != length {
            return None;
        }
        Some(LoaderEntry { version, title, sort_key, stub, kernel, initrd, options })
    }
}


/// Texts without an end of line, put one behind the other, hold none.
pub proof fn lemma_one_line_concat(a: Seq<char>, b: Seq<char>)
    requires
        one_line(a),
        one_line(b),
    ensures
        one_line(a + b),
{
    assert forall|i: int| 0 <= i < (a + b).len() implies #[trigger] (a + b)[i] != '\n' by {
        if i < a.len() {
            assert((a + b)[i] == a[i]);
        } else {
            assert((a + b)[i] == b[i - a.len()]);
        }
    }
}

/// The words that paths and titles are made of hold no end of line.
proof fn lemma_words_one_line()
    ensures
        one_line("Generation "@),
        one_line("nixos"@),
        one_line("EFI/nixos/kernel-"@),
        one_line("EFI/nixos/initrd-"@),
        one_line("EFI/Linux/nixos-"@),
        one_line(".efi"@),
        one_line("0123456789abcdef"@),
        "0123456789abcdef"@.len() == 16,
{
    assert(one_line("Generation "@)) by {
        reveal_strlit("Generation ");
        let text = "Generation "@;
        assert(text.len() == 11);
        assert(text[0] != '\n' && text[1] != '\n' && text[2] != '\n' && text[3] != '\n' && text[4] != '\n' && text[5] != '\n' && text[6] != '\n' && text[7] != '\n' && text[8] != '\n' && text[9] != '\n' && text[10] != '\n');
    }
    assert(one_line("nixos"@)) by {
        reveal_strlit("nixos");
        let text = "nixos"@;
        assert(text.len() == 5);
        assert(text[0] != '\n' && text[1] != '\n' && text[2] != '\n' && text[3] != '\n' && text[4] != '\n');
    }
    assert(one_line("EFI/nixos/kernel-"@)) by {
        reveal_strlit("EFI/nixos/kernel-");
        let text = "EFI/nixos/kernel-"@;
        assert(text.len() == 17);
        assert(text[0] != '\n' && text[1] != '\n' && text[2] != '\n' && text[3] != '\n' && text[4] != '\n' && text[5] != '\n' && text[6] != '\n' && text[7] != '\n' && text[8] != '\n' && text[9] != '\n' && text[10] != '\n' && text[11] != '\n' && text[12] != '\n' && text[13] != '\n' && text[14] != '\n' && text[15] != '\n' && text[16] != '\n');
    }
    assert(one_line("EFI/nixos/initrd-"@)) by {
        reveal_strlit("EFI/nixos/initrd-");
        let text = "EFI/nixos/initrd-"@;
        assert(text.len() == 17);
        assert(text[0] != '\n' && text[1] != '\n' && text[2] != '\n' && text[3] != '\n' && text[4] != '\n' && text[5] != '\n' && text[6] != '\n' && text[7] != '\n' && text[8] != '\n' && text[9] != '\n' && text[10] != '\n' && text[11] != '\n' && text[12] != '\n' && text[13] != '\n' && text[14] != '\n' && text[15] != '\n' && text[16] != '\n');
    }
    assert(one_line("EFI/Linux/nixos-"@)) by {
        reveal_strlit("EFI/Linux/nixos-");
        let text = "EFI/Linux/nixos-"@;
        assert(text.len() == 16);
        assert(text[0] != '\n' && text[1] != '\n' && text[2] != '\n' && text[3] != '\n' && text[4] != '\n' && text[5] != '\n' && text[6] != '\n' && text[7] != '\n' && text[8] != '\n' && text[9] != '\n' && text[10] != '\n' && text[11] != '\n' && text[12] != '\n' && text[13] != '\n' && text[14] != '\n' && text[15] != '\n');
    }
    assert(one_line(".efi"@)) by {
        reveal_strlit(".efi");
        let text = ".efi"@;
        assert(text.len() == 4);
        assert(text[0] != '\n' && text[1] != '\n' && text[2] != '\n' && text[3] != '\n');
    }
    assert(one_line("0123456789abcdef"@)) by {
        reveal_strlit("0123456789abcdef");
        let text = "0123456789abcdef"@;
        assert(text.len() == 16);
        assert(text[0] != '\n' && text[1] != '\n' && text[2] != '\n' && text[3] != '\n' && text[4] != '\n' && text[5] != '\n' && text[6] != '\n' && text[7] != '\n' && text[8] != '\n' && text[9] != '\n' && text[10] != '\n' && text[11] != '\n' && text[12] != '\n' && text[13] != '\n' && text[14] != '\n' && text[15] != '\n');
    }
    reveal_strlit("0123456789abcdef");
}

/// A digest in hexadecimal holds no end of line.
pub proof fn lemma_hex_one_line(bytes: Seq<u8>)
    ensures
        one_line(hex(bytes)),
{
    lemma_words_one_line();
    let table = "0123456789abcdef"@;
    assert forall|i: int| 0 <= i < hex(bytes).len() implies #[trigger] hex(bytes)[i] != '\n' by {
        let b = bytes[i / 2] as int;
        assert(0 <= b / 16 < 16 && 0 <= b % 16 < 16);
        assert(table[b / 16] != '\n');
        assert(table[b % 16] != '\n');
    }
}

/// The path of a kernel, an initrd or a stub holds no end of line.
pub proof fn lemma_path_one_line(kind: ArtifactKind, architecture: Architecture, digest: Seq<u8>)
    requires
        kind != ArtifactKind::Bootloader,
    ensures
        one_line(artifact_path(kind, architecture, digest)),
{
    reveal(artifact_path);
    lemma_words_one_line();
    lemma_hex_one_line(digest);
    lemma_one_line_concat("EFI/nixos/kernel-"@, hex(digest));
    lemma_one_line_concat("EFI/nixos/initrd-"@, hex(digest));
    lemma_one_line_concat("EFI/Linux/nixos-"@, hex(digest));
    lemma_one_line_concat("EFI/nixos/kernel-"@ + hex(digest), ".efi"@);
    lemma_one_line_concat("EFI/nixos/initrd-"@ + hex(digest), ".efi"@);
    lemma_one_line_concat("EFI/Linux/nixos-"@ + hex(digest), ".efi"@);
}

/// The entry of a generation can be written to a file and read again, if
/// its command line and the paths of its artifacts hold no end of line.
pub proof fn lemma_entry_writable(
    generation: ResolvedView,
    stub: Seq<char>,
    kernel: Seq<char>,
    initrd: Seq<char>,
)
    requires
        one_line(joined(generation.generation.cmdline)),
        one_line(stub),
        one_line(kernel),
        one_line(initrd),
    ensures
        writable(entry_of(generation, stub, kernel, initrd)),
{
    reveal(entry_of);
    lemma_words_one_line();
    let digits = decimal(generation.generation.version as nat);
    lemma_decimal_parses(generation.generation.version as nat);
    assert(one_line(digits)) by {
        assert forall|i: int| 0 <= i < digits.len() implies #[trigger] digits[i] != '\n' by {
            assert(crate::number::digit_of(digits[i]) is Some);
        }
    }
    lemma_one_line_concat("Generation "@, digits);
}

/// Decides `one_line`.
pub fn is_one_line(text: &str) -> (b: bool)
    ensures
        b == one_line(text@),
{
    let length = text.unicode_len();
    let mut i: usize = 0;
    while i < length
        invariant
            i <= length,
            length == text@.len(),
            forall|j: int| 0 <= j < i ==> #[trigger] text@[j] != '\n',
        decreases length - i,
    {
        if text.get_char(i) == '\n' {
            return false;
        }
        i += 1;
    }
    true
}

impl LoaderEntry {
    /// Decides `writable`.
    pub fn is_writable(&self) -> (b: bool)
        ensures
            b == writable(self@),
    {
        is_one_line(self.title.as_str()) && is_one_line(self.sort_key.as_str()) && is_one_line(
            self.stub.as_str(),
        ) && is_one_line(self.options.as_str()) && is_one_line(self.kernel.as_str())
            && is_one_line(self.initrd.as_str())
    }
}

} // verus!
