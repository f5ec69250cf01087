# recapn

A library for reading and building Cap'n Proto messages, written in Verus: the wire format,
the arenas that hold message segments, readers and builders of structs, lists and blobs, the
stream framing format and the packing compression, each with contracts that Verus proves.

## Layout

- `src/num.rs`: the narrow integer types of the wire format (29-bit counts, 30-bit offsets).
- `src/allocator.rs`: words, segments and the allocators that hand segments to a message.
- `src/arena.rs`: arenas of segments, read-only (`ReadArena`) and growable (`BuildArena`).
- `src/ptr.rs`: the pointer encodings, the reading of structs, lists and blobs under a traversal
  and nesting limit, the building of structs, lists and blobs, the measuring of what pointers
  refer to, and the comparing of what two pointers refer to.
- `src/clear.rs`: clearing a pointer of a message being built, zeroing what it referred to.
- `src/orphan.rs`: disowning what a pointer refers to as an orphan, and adopting it again at
  another pointer, through landing pads where segments differ.
- `src/message.rs`: messages, their readers and builders, and their segments.
- `src/field.rs`, `src/list.rs`, `src/data.rs`, `src/text.rs`, `src/any.rs`: typed access to
  fields, lists, data, text and values of any type.
- `src/io.rs`, `src/io/stream.rs`, `src/io/packing.rs`: the stream framing table, reading a
  message from flat words, and packing.
- `src/rpc.rs`: the capability-table and pipeline traits.
- `app/lib.rs`: reading and writing messages on `std::io` streams, framed or packed.

## What is proved

Besides the contract of each function, the library states and proves:

- `ptr::lemma_struct_ptr_round_trip`, `ptr::lemma_parts_injective`,
  `ptr::lemma_element_size_code_round_trip`: the pointer encodings decode to what was encoded.
- `ptr::lemma_upgrade_*`: element size upgrades are reflexive, commutative and absorbing, and an
  upgrade can be read as either size.
- `ptr::lemma_write_then_read`, `ptr::lemma_list_write_then_read`: a field or list element
  written through a builder reads back, through the pointer that reached it, as the value written.
- `ptr::lemma_zeroed_struct_reads_defaults`, `ptr::lemma_zeroed_list_reads_zero`: the words of a
  new struct or list are zero (the allocation's contract), so its fields read as their defaults
  and its elements as zero.
- `ptr::lemma_reads_struct_frame`, `ptr::lemma_reads_list_frame`: writing inside an object leaves
  it reachable through the pointer that refers to it.
- `io::stream::lemma_table_round_trip`, `io::lemma_read_written_message`: a message written in
  the stream format reads back as the same segments.
- `io::packing::lemma_unpack_pack`, `io::packing::lemma_unpacker_round_trip`: unpacking packed words
  gives the words back.
- `io::packing::lemma_unpack_exactly`: unpacking all of a packed stream into exactly enough room
  reads all of it, stops for want of input and leaves the unpacker idle.
- `orphan::lemma_disown_adopt`: adopting what was disowned leads to the same content.
