use vstd::prelude::*;
use crate::type_reader::TypeReader;

verus! {

/// Reads one compressed unsigned integer at `off`, bounded by `end`: the
/// value and the position after it, or `None` when the top bits are invalid
/// or the bytes run out.
pub open spec fn read_unsigned_spec(bytes: Seq<u8>, off: int, end: int) -> Option<(int, int)> {
    if !(0 <= off && off < end && end <= bytes.len()) {
        Option::None
    } else {
        let b0 = bytes[off] as int;
        if b0 < 0x80 {
            Option::Some((b0, off + 1))
        } else if b0 < 0xC0 {
            if off + 1 < end {
                Option::Some(((b0 - 0x80) * 0x100 + bytes[off + 1], off + 2))
            } else {
                Option::None
            }
        } else if b0 < 0xE0 {
            if off + 3 < end {
                Option::Some(
                    (
                        (b0 - 0xC0) * 0x1000000 + bytes[off + 1] * 0x10000 + bytes[off + 2] * 0x100
                            + bytes[off + 3],
                        off + 4,
                    ),
                )
            } else {
                Option::None
            }
        } else {
            Option::None
        }
    }
}

/// Skips a run of custom-modifier marks, each a mark byte followed by a
/// compressed type token: the position after the run, or `None` when a mark
/// has no token behind it.
pub open spec fn skip_modifiers_spec(bytes: Seq<u8>, off: int, end: int) -> Option<int>
    decreases end - off,
{
    match read_unsigned_spec(bytes, off, end) {
        Option::None => Option::Some(off),
        Option::Some(v) => if v.0 != 31 && v.0 != 32 {
            Option::Some(off)
        } else {
            match read_unsigned_spec(bytes, v.1, end) {
                Option::None => Option::None,
                Option::Some(w) => if off < w.1 <= end {
                    skip_modifiers_spec(bytes, w.1, end)
                } else {
                    Option::None
                },
            }
        },
    }
}

/// What reading one expected compressed value does: consumes it when it is
/// there and equals `expected`, else leaves the position alone.
pub open spec fn read_expected_spec(bytes: Seq<u8>, off: int, end: int, expected: int) -> (
    bool,
    int,
) {
    match read_unsigned_spec(bytes, off, end) {
        Option::Some(v) => if v.0 == expected {
            (true, v.1)
        } else {
            (false, off)
        },
        Option::None => (false, off),
    }
}

/// A view into the blob heap: which file, where the content starts after the
/// length prefix, and how many bytes it holds; reading advances the start.
#[derive(Copy, Clone, PartialEq, Eq, Structural, Debug)]
pub struct Blob {
    pub file_index: usize,
    pub offset: usize,
    pub size: usize,
}

impl Blob {
    /// The blob lies inside its file.
    pub open spec fn wf(self, reader: TypeReader) -> bool {
        &&& self.file_index < reader.files@.len()
        &&& self.offset + self.size <= reader.files@[self.file_index as int].bytes@.len()
    }

    /// One past the blob's last byte.
    pub open spec fn end_spec(self) -> int {
        self.offset + self.size
    }

    /// The bytes of the blob's file.
    pub open spec fn bytes_spec(self, reader: TypeReader) -> Seq<u8> {
        reader.files@[self.file_index as int].bytes@
    }

    /// Reads one compressed unsigned integer and advances past it; a blob
    /// whose front holds none is left alone.
    pub fn read_unsigned(&mut self, reader: &TypeReader) -> (r: Option<u32>)
        requires
            old(self).wf(*reader),
        ensures
            final(self).wf(*reader),
            final(self).file_index == old(self).file_index,
            final(self).end_spec() == old(self).end_spec(),
            ({
                let bytes = old(self).bytes_spec(*reader);
                match read_unsigned_spec(bytes, old(self).offset as int, old(self).end_spec()) {
                    Option::Some(v) => r == Option::Some(v.0 as u32) && final(self).offset == v.1,
                    Option::None => r is None && *final(self) == *old(self),
                }
            }),
    {
        let file = &reader.files[self.file_index];
        let len = file.bytes.len();
        proof {
            assert(self.offset + self.size <= len);
        }
        let end = self.offset + self.size;
        if self.size == 0 {
            return Option::None;
        }
        let b0 = file.bytes[self.offset];
        if b0 < 0x80 {
            self.offset = self.offset + 1;
            self.size = self.size - 1;
            Option::Some(b0 as u32)
        } else if b0 < 0xC0 {
            if self.size > 1 {
                let v = ((b0 - 0x80) as u32) * 0x100 + (file.bytes[self.offset + 1] as u32);
                self.offset = self.offset + 2;
                self.size = self.size - 2;
                Option::Some(v)
            } else {
                Option::None
            }
        } else if b0 < 0xE0 {
            if self.size > 3 {
                let v = ((b0 - 0xC0) as u32) * 0x1000000 + (file.bytes[self.offset
                    + 1] as u32) * 0x10000 + (file.bytes[self.offset + 2] as u32) * 0x100 + (
                file.bytes[self.offset + 3] as u32);
                self.offset = self.offset + 4;
                self.size = self.size - 4;
                Option::Some(v)
            } else {
                Option::None
            }
        } else {
            Option::None
        }
    }

    /// Reads one compressed value when it equals `expected`, else rewinds.
    pub fn read_expected(&mut self, reader: &TypeReader, expected: u32) -> (r: bool)
        requires
            old(self).wf(*reader),
        ensures
            final(self).wf(*reader),
            final(self).file_index == old(self).file_index,
            final(self).end_spec() == old(self).end_spec(),
            ({
                let spec = read_expected_spec(
                    old(self).bytes_spec(*reader),
                    old(self).offset as int,
                    old(self).end_spec(),
                    expected as int,
                );
                r == spec.0 && final(self).offset == spec.1
            }),
    {
        let saved_offset = self.offset;
        let saved_size = self.size;
        match self.read_unsigned(reader) {
            Option::Some(v) => {
                if v == expected {
                    true
                } else {
                    self.offset = saved_offset;
                    self.size = saved_size;
                    false
                }
            },
            Option::None => {
                false
            },
        }
    }

    /// Skips the custom-modifier marks at the blob's front; `false` means a
    /// mark had no token behind it.
    pub fn read_modifiers(&mut self, reader: &TypeReader) -> (r: bool)
        requires
            old(self).wf(*reader),
        ensures
            final(self).wf(*reader),
            final(self).file_index == old(self).file_index,
            final(self).end_spec() == old(self).end_spec(),
            r == (skip_modifiers_spec(
                old(self).bytes_spec(*reader),
                old(self).offset as int,
                old(self).end_spec(),
            ) is Some),
            ({
                match skip_modifiers_spec(
                    old(self).bytes_spec(*reader),
                    old(self).offset as int,
                    old(self).end_spec(),
                ) {
                    Option::Some(o) => final(self).offset == o,
                    Option::None => true,
                }
            }),
    {
        let ghost bytes = old(self).bytes_spec(*reader);
        let ghost end = old(self).end_spec();
        loop
            invariant
                self.wf(*reader),
                self.file_index == old(self).file_index,
                self.end_spec() == old(self).end_spec(),
                bytes == old(self).bytes_spec(*reader),
                end == old(self).end_spec(),
                skip_modifiers_spec(bytes, old(self).offset as int, end) == skip_modifiers_spec(
                    bytes,
                    self.offset as int,
                    end,
                ),
            decreases self.size,
        {
            let saved_offset = self.offset;
            let saved_size = self.size;
            let ghost off0 = self.offset as int;
            match self.read_unsigned(reader) {
                Option::Some(v) => {
                    if v != 31 && v != 32 {
                        self.offset = saved_offset;
                        self.size = saved_size;
                        return true;
                    }
                    match self.read_unsigned(reader) {
                        Option::Some(_) => {
                            proof {
                                assert(self.offset > off0);
                            }
                        },
                        Option::None => {
                            return false;
                        },
                    }
                },
                Option::None => {
                    return true;
                },
            }
        }
    }
}

} // verus!
