//! What an update says, and how it is written down: the data of an update, and for each kind
//! of data its bytes, the strings in it and the conditions on it. Nothing here reads bytes.
//!
//! Numbers are kept as they are spelled. A count may be spelled in more bytes than it needs,
//! and of an id, a clock or a length any value will do.

use vstd::prelude::*;

use crate::wire::var_bits_u32;

verus! {

/// The bytes are a variable length integer of at most `most` bytes: all but the last have
/// their highest bit set.
pub open spec fn is_varint(bytes: Seq<u8>, most: nat) -> bool {
    &&& 1 <= bytes.len() <= most
    &&& forall|i: int| 0 <= i < bytes.len() - 1 ==> #[trigger] bytes[i] >= 0x80
    &&& bytes[bytes.len() - 1] < 0x80
}

/// The bytes are an unsigned number.
pub open spec fn is_unsigned(bytes: Seq<u8>) -> bool {
    is_varint(bytes, 11)
}

/// The bytes spell the number `n`.
pub open spec fn is_count(bytes: Seq<u8>, n: nat) -> bool {
    is_unsigned(bytes) && var_bits_u32(bytes, bytes.len()) == n
}

/// The bytes are a signed number that 64 bits can hold and negate: not the sign and the
/// highest bit of ten bytes alone.
pub open spec fn is_signed(bytes: Seq<u8>) -> bool {
    &&& is_varint(bytes, 10)
    &&& !(bytes.len() == 10 && bytes[0] == 0xc0 && (forall|i: int|
        1 <= i < 9 ==> #[trigger] bytes[i] == 0x80) && bytes[9] % 4 == 2)
}

/// How data of one kind is written.
#[verifier::reject_recursive_types(T)]
pub struct Format<T> {
    /// The bytes.
    pub bytes: spec_fn(T) -> Seq<u8>,
    /// The strings in it, in order.
    pub strings: spec_fn(T) -> Seq<Seq<u8>>,
    /// The conditions under which it can be written so.
    pub valid: spec_fn(T) -> bool,
}

/// The bytes of some data, one behind the other.
pub open spec fn all_bytes<T>(f: Format<T>, xs: Seq<T>) -> Seq<u8>
    decreases xs.len(),
{
    if xs.len() == 0 {
        Seq::empty()
    } else {
        (f.bytes)(xs[0]) + all_bytes(f, xs.skip(1))
    }
}

/// The strings in some data.
pub open spec fn all_strings<T>(f: Format<T>, xs: Seq<T>) -> Seq<Seq<u8>>
    decreases xs.len(),
{
    if xs.len() == 0 {
        Seq::empty()
    } else {
        (f.strings)(xs[0]) + all_strings(f, xs.skip(1))
    }
}

/// All the data can be written.
pub open spec fn all_valid<T>(f: Format<T>, xs: Seq<T>) -> bool {
    forall|i: int| 0 <= i < xs.len() ==> (f.valid)(#[trigger] xs[i])
}

/// A number whose value does not matter.
pub open spec fn number_format() -> Format<Seq<u8>> {
    Format {
        bytes: |x: Seq<u8>| x,
        strings: |x: Seq<u8>| Seq::empty(),
        valid: |x: Seq<u8>| is_unsigned(x),
    }
}

/// A string or a buffer, behind its length.
pub struct Text {
    pub len: Seq<u8>,
    pub text: Seq<u8>,
}

impl Text {
    pub open spec fn bytes(self) -> Seq<u8> {
        self.len + self.text
    }

    pub open spec fn valid(self) -> bool {
        is_count(self.len, self.text.len())
    }
}

/// A string.
pub open spec fn text_format() -> Format<Text> {
    Format {
        bytes: |x: Text| x.bytes(),
        strings: |x: Text| seq![x.text],
        valid: |x: Text| x.valid(),
    }
}

/// Arbitrary bytes.
pub open spec fn data_format() -> Format<Text> {
    Format {
        bytes: |x: Text| x.bytes(),
        strings: |x: Text| Seq::empty(),
        valid: |x: Text| x.valid(),
    }
}

/// A client and a clock.
pub struct Id {
    pub client: Seq<u8>,
    pub clock: Seq<u8>,
}

impl Id {
    pub open spec fn bytes(self) -> Seq<u8> {
        self.client + self.clock
    }

    pub open spec fn valid(self) -> bool {
        is_unsigned(self.client) && is_unsigned(self.clock)
    }
}

pub open spec fn id_format() -> Format<Id> {
    Format {
        bytes: |x: Id| x.bytes(),
        strings: |x: Id| Seq::empty(),
        valid: |x: Id| x.valid(),
    }
}

/// An `Any` value.
pub enum Value {
    /// Undefined, null, false or true.
    Word { tag: u8 },
    /// A variable length integer.
    Integer { digits: Seq<u8> },
    /// A floating point number or a 64-bit integer of fixed width.
    Fixed { tag: u8, bytes: Seq<u8> },
    /// A string.
    Text { text: Text },
    /// Arbitrary bytes.
    Buffer { data: Text },
    /// Entries, and how many.
    Record { count: Seq<u8>, entries: Seq<Entry> },
    /// Values, and how many.
    List { count: Seq<u8>, items: Seq<Value> },
}

/// An entry of a map: a key and its value.
pub struct Entry {
    pub key: Text,
    pub value: Value,
}

/// The bytes of an `Any` value: a tag, and what belongs to it.
pub open spec fn value_bytes(v: Value) -> Seq<u8>
    decreases v,
{
    match v {
        Value::Word { tag } => seq![tag],
        Value::Integer { digits } => seq![125u8] + digits,
        Value::Fixed { tag, bytes } => seq![tag] + bytes,
        Value::Text { text } => seq![119u8] + text.bytes(),
        Value::Buffer { data } => seq![116u8] + data.bytes(),
        Value::Record { count, entries } => seq![118u8] + count + entries_bytes(entries),
        Value::List { count, items } => seq![117u8] + count + items_bytes(items),
    }
}

pub open spec fn entry_bytes(e: Entry) -> Seq<u8>
    decreases e,
{
    e.key.bytes() + value_bytes(e.value)
}

pub open spec fn entries_bytes(entries: Seq<Entry>) -> Seq<u8>
    decreases entries,
{
    if entries.len() == 0 {
        Seq::empty()
    } else {
        entry_bytes(entries[0]) + entries_bytes(entries.subrange(1, entries.len() as int))
    }
}

pub open spec fn items_bytes(items: Seq<Value>) -> Seq<u8>
    decreases items,
{
    if items.len() == 0 {
        Seq::empty()
    } else {
        value_bytes(items[0]) + items_bytes(items.subrange(1, items.len() as int))
    }
}

/// The strings in an `Any` value: the keys of maps are strings too.
pub open spec fn value_strings(v: Value) -> Seq<Seq<u8>>
    decreases v,
{
    match v {
        Value::Text { text } => seq![text.text],
        Value::Record { entries, .. } => entries_strings(entries),
        Value::List { items, .. } => items_strings(items),
        _ => Seq::empty(),
    }
}

pub open spec fn entry_strings(e: Entry) -> Seq<Seq<u8>>
    decreases e,
{
    seq![e.key.text] + value_strings(e.value)
}

pub open spec fn entries_strings(entries: Seq<Entry>) -> Seq<Seq<u8>>
    decreases entries,
{
    if entries.len() == 0 {
        Seq::empty()
    } else {
        entry_strings(entries[0]) + entries_strings(entries.subrange(1, entries.len() as int))
    }
}

pub open spec fn items_strings(items: Seq<Value>) -> Seq<Seq<u8>>
    decreases items,
{
    if items.len() == 0 {
        Seq::empty()
    } else {
        value_strings(items[0]) + items_strings(items.subrange(1, items.len() as int))
    }
}

/// The value can stand at the nesting depth `depth`: its parts are well spelled, and neither it
/// nor a value in it is more than 256 levels deep.
pub open spec fn value_valid(v: Value, depth: nat) -> bool
    decreases v,
{
    &&& depth <= 256
    &&& match v {
        Value::Word { tag } => tag == 127 || tag == 126 || tag == 121 || tag == 120,
        Value::Integer { digits } => is_signed(digits),
        Value::Fixed { tag, bytes } => {
            ||| tag == 124 && bytes.len() == 4
            ||| tag == 123 && bytes.len() == 8
            ||| tag == 122 && bytes.len() == 8
        },
        Value::Text { text } => text.valid(),
        Value::Buffer { data } => data.valid(),
        Value::Record { count, entries } => is_count(count, entries.len()) && entries_valid(
            entries,
            depth + 1,
        ),
        Value::List { count, items } => is_count(count, items.len()) && items_valid(
            items,
            depth + 1,
        ),
    }
}

pub open spec fn entry_valid(e: Entry, depth: nat) -> bool
    decreases e,
{
    e.key.valid() && value_valid(e.value, depth)
}

pub open spec fn entries_valid(entries: Seq<Entry>, depth: nat) -> bool
    decreases entries,
{
    entries.len() > 0 ==> entry_valid(entries[0], depth) && entries_valid(
        entries.subrange(1, entries.len() as int),
        depth,
    )
}

pub open spec fn items_valid(items: Seq<Value>, depth: nat) -> bool
    decreases items,
{
    items.len() > 0 ==> value_valid(items[0], depth) && items_valid(
        items.subrange(1, items.len() as int),
        depth,
    )
}

/// An `Any` value at a nesting depth.
pub open spec fn value_format(depth: nat) -> Format<Value> {
    Format {
        bytes: |x: Value| value_bytes(x),
        strings: |x: Value| value_strings(x),
        valid: |x: Value| value_valid(x, depth),
    }
}

/// An entry of a map, whose value is at a nesting depth.
pub open spec fn entry_format(depth: nat) -> Format<Entry> {
    Format {
        bytes: |x: Entry| entry_bytes(x),
        strings: |x: Entry| entry_strings(x),
        valid: |x: Entry| entry_valid(x, depth),
    }
}

/// A reference to a shared type.
pub enum TypeRef {
    /// An array (0), map (1), text (2), XML fragment (4), XML hook (5), XML text (6),
    /// subdocument (9) or a type not known yet (15).
    Plain { tag: u8 },
    /// An XML element, by its name.
    Element { name: Text },
}

/// The content of an item.
pub enum Content {
    Deleted { len: Seq<u8> },
    Json { count: Seq<u8>, texts: Seq<Text> },
    Binary { data: Text },
    Text { text: Text },
    Embed { json: Text },
    Mark { key: Text, value: Text },
    Shared { type_ref: TypeRef },
    Values { count: Seq<u8>, values: Seq<Value> },
    Doc { guid: Text, options: Value },
}

impl TypeRef {
    pub open spec fn bytes(self) -> Seq<u8> {
        match self {
            TypeRef::Plain { tag } => seq![tag],
            TypeRef::Element { name } => seq![3u8] + name.bytes(),
        }
    }

    pub open spec fn strings(self) -> Seq<Seq<u8>> {
        match self {
            TypeRef::Plain { .. } => Seq::empty(),
            TypeRef::Element { name } => seq![name.text],
        }
    }

    pub open spec fn valid(self) -> bool {
        match self {
            TypeRef::Plain { tag } => {
                ||| tag == 0
                ||| tag == 1
                ||| tag == 2
                ||| tag == 4
                ||| tag == 5
                ||| tag == 6
                ||| tag == 9
                ||| tag == 15
            },
            TypeRef::Element { name } => name.valid(),
        }
    }
}

pub open spec fn type_ref_format() -> Format<TypeRef> {
    Format {
        bytes: |x: TypeRef| x.bytes(),
        strings: |x: TypeRef| x.strings(),
        valid: |x: TypeRef| x.valid(),
    }
}

impl Content {
    /// The number that stands for the kind of content.
    pub open spec fn kind(self) -> u8 {
        match self {
            Content::Deleted { .. } => 1,
            Content::Json { .. } => 2,
            Content::Binary { .. } => 3,
            Content::Text { .. } => 4,
            Content::Embed { .. } => 5,
            Content::Mark { .. } => 6,
            Content::Shared { .. } => 7,
            Content::Values { .. } => 8,
            Content::Doc { .. } => 9,
        }
    }

    pub open spec fn bytes(self) -> Seq<u8> {
        match self {
            Content::Deleted { len } => len,
            Content::Json { count, texts } => count + all_bytes(text_format(), texts),
            Content::Binary { data } => data.bytes(),
            Content::Text { text } => text.bytes(),
            Content::Embed { json } => json.bytes(),
            Content::Mark { key, value } => key.bytes() + value.bytes(),
            Content::Shared { type_ref } => type_ref.bytes(),
            Content::Values { count, values } => count + all_bytes(value_format(0), values),
            Content::Doc { guid, options } => guid.bytes() + value_bytes(options),
        }
    }

    pub open spec fn strings(self) -> Seq<Seq<u8>> {
        match self {
            Content::Deleted { .. } => Seq::empty(),
            Content::Json { texts, .. } => all_strings(text_format(), texts),
            Content::Binary { .. } => Seq::empty(),
            Content::Text { text } => seq![text.text],
            Content::Embed { json } => seq![json.text],
            Content::Mark { key, value } => seq![key.text, value.text],
            Content::Shared { type_ref } => type_ref.strings(),
            Content::Values { values, .. } => all_strings(value_format(0), values),
            Content::Doc { guid, options } => seq![guid.text] + value_strings(options),
        }
    }

    /// JSON content holds one string more than its count says.
    pub open spec fn valid(self) -> bool {
        match self {
            Content::Deleted { len } => is_unsigned(len),
            Content::Json { count, texts } => {
                &&& texts.len() >= 1
                &&& is_count(count, (texts.len() - 1) as nat)
                &&& all_valid(text_format(), texts)
            },
            Content::Binary { data } => data.valid(),
            Content::Text { text } => text.valid(),
            Content::Embed { json } => json.valid(),
            Content::Mark { key, value } => key.valid() && value.valid(),
            Content::Shared { type_ref } => type_ref.valid(),
            Content::Values { count, values } => is_count(count, values.len()) && all_valid(
                value_format(0),
                values,
            ),
            Content::Doc { guid, options } => guid.valid() && value_valid(options, 0),
        }
    }
}

/// Content of the kind that the low four bits of an info byte give.
pub open spec fn content_format(info: u8) -> Format<Content> {
    Format {
        bytes: |x: Content| x.bytes(),
        strings: |x: Content| x.strings(),
        valid: |x: Content| x.valid() && x.kind() == info & 0b1111,
    }
}

/// The parent of an item, by its name (behind a number 1) or by its id (behind another number).
pub enum Parent {
    Named { flag: Seq<u8>, name: Text },
    Known { flag: Seq<u8>, id: Id },
}

impl Parent {
    pub open spec fn bytes(self) -> Seq<u8> {
        match self {
            Parent::Named { flag, name } => flag + name.bytes(),
            Parent::Known { flag, id } => flag + id.bytes(),
        }
    }

    pub open spec fn strings(self) -> Seq<Seq<u8>> {
        match self {
            Parent::Named { name, .. } => seq![name.text],
            Parent::Known { .. } => Seq::empty(),
        }
    }

    pub open spec fn valid(self) -> bool {
        match self {
            Parent::Named { flag, name } => is_count(flag, 1) && name.valid(),
            Parent::Known { flag, id } => is_unsigned(flag) && !is_count(flag, 1) && id.valid(),
        }
    }
}

pub open spec fn parent_format() -> Format<Parent> {
    Format {
        bytes: |x: Parent| x.bytes(),
        strings: |x: Parent| x.strings(),
        valid: |x: Parent| x.valid(),
    }
}

/// The bytes, strings and validity of data that may be absent.
pub open spec fn optional_format<T>(f: Format<T>, present: bool) -> Format<Option<T>> {
    Format {
        bytes: |x: Option<T>|
            match x {
                Some(y) => (f.bytes)(y),
                None => Seq::empty(),
            },
        strings: |x: Option<T>|
            match x {
                Some(y) => (f.strings)(y),
                None => Seq::empty(),
            },
        valid: |x: Option<T>|
            match x {
                Some(y) => present && (f.valid)(y),
                None => !present,
            },
    }
}

/// An item: the ids of its neighbours, its parent and its key there, and its content. The
/// info byte says which of them there are: an item with a neighbour tells neither parent nor
/// key.
pub struct Item {
    pub info: u8,
    pub left: Option<Id>,
    pub right: Option<Id>,
    pub parent: Option<Parent>,
    pub key: Option<Text>,
    pub content: Content,
}

/// The info byte announces the id of the left neighbour.
pub open spec fn has_left(info: u8) -> bool {
    info & 0x80 != 0
}

/// The info byte announces the id of the right neighbour.
pub open spec fn has_right(info: u8) -> bool {
    info & 0x40 != 0
}

/// An item with this info byte names its parent.
pub open spec fn has_parent(info: u8) -> bool {
    !has_left(info) && !has_right(info)
}

/// An item with this info byte names its key in the parent.
pub open spec fn has_key(info: u8) -> bool {
    has_parent(info) && info & 0x20 != 0
}

impl Item {
    /// What stands between the info byte and the content.
    pub open spec fn head_bytes(self) -> Seq<u8> {
        (optional_format(id_format(), has_left(self.info)).bytes)(self.left) + (optional_format(
            id_format(),
            has_right(self.info),
        ).bytes)(self.right) + self.place_bytes()
    }

    pub open spec fn place_bytes(self) -> Seq<u8> {
        (optional_format(parent_format(), has_parent(self.info)).bytes)(self.parent) + (
        optional_format(text_format(), has_key(self.info)).bytes)(self.key)
    }

    pub open spec fn bytes(self) -> Seq<u8> {
        self.head_bytes() + self.content.bytes()
    }

    pub open spec fn place_strings(self) -> Seq<Seq<u8>> {
        (optional_format(parent_format(), has_parent(self.info)).strings)(self.parent) + (
        optional_format(text_format(), has_key(self.info)).strings)(self.key)
    }

    pub open spec fn strings(self) -> Seq<Seq<u8>> {
        self.place_strings() + self.content.strings()
    }

    pub open spec fn valid(self) -> bool {
        &&& (optional_format(id_format(), has_left(self.info)).valid)(self.left)
        &&& (optional_format(id_format(), has_right(self.info)).valid)(self.right)
        &&& (optional_format(parent_format(), has_parent(self.info)).valid)(self.parent)
        &&& (optional_format(text_format(), has_key(self.info)).valid)(self.key)
        &&& (content_format(self.info).valid)(self.content)
    }
}

/// A block: a range that was collected (0), one that is left out (10), or an item.
pub enum Block {
    Collected { len: Seq<u8> },
    Skipped { len: Seq<u8> },
    Item { item: Item },
}

impl Block {
    pub open spec fn bytes(self) -> Seq<u8> {
        match self {
            Block::Collected { len } => seq![0u8] + len,
            Block::Skipped { len } => seq![10u8] + len,
            Block::Item { item } => seq![item.info] + item.bytes(),
        }
    }

    pub open spec fn strings(self) -> Seq<Seq<u8>> {
        match self {
            Block::Collected { .. } => Seq::empty(),
            Block::Skipped { .. } => Seq::empty(),
            Block::Item { item } => item.strings(),
        }
    }

    pub open spec fn valid(self) -> bool {
        match self {
            Block::Collected { len } => is_unsigned(len),
            Block::Skipped { len } => is_unsigned(len),
            Block::Item { item } => item.info != 0 && item.info != 10 && item.valid(),
        }
    }
}

pub open spec fn block_format() -> Format<Block> {
    Format {
        bytes: |x: Block| x.bytes(),
        strings: |x: Block| x.strings(),
        valid: |x: Block| x.valid(),
    }
}

/// The blocks of one client: how many, of which client and from which clock on.
pub struct Client {
    pub count: Seq<u8>,
    pub start: Id,
    pub blocks: Seq<Block>,
}

impl Client {
    pub open spec fn bytes(self) -> Seq<u8> {
        self.count + self.start.bytes() + all_bytes(block_format(), self.blocks)
    }

    pub open spec fn strings(self) -> Seq<Seq<u8>> {
        all_strings(block_format(), self.blocks)
    }

    pub open spec fn valid(self) -> bool {
        &&& is_count(self.count, self.blocks.len())
        &&& self.start.valid()
        &&& all_valid(block_format(), self.blocks)
    }
}

pub open spec fn client_format() -> Format<Client> {
    Format {
        bytes: |x: Client| x.bytes(),
        strings: |x: Client| x.strings(),
        valid: |x: Client| x.valid(),
    }
}

/// A deleted range: a clock and a length.
pub struct Range {
    pub clock: Seq<u8>,
    pub len: Seq<u8>,
}

pub open spec fn range_format() -> Format<Range> {
    Format {
        bytes: |x: Range| x.clock + x.len,
        strings: |x: Range| Seq::empty(),
        valid: |x: Range| is_unsigned(x.clock) && is_unsigned(x.len),
    }
}

/// The deleted ranges of one client, and how many.
pub struct Ranges {
    pub count: Seq<u8>,
    pub ranges: Seq<Range>,
}

impl Ranges {
    pub open spec fn bytes(self) -> Seq<u8> {
        self.count + all_bytes(range_format(), self.ranges)
    }

    pub open spec fn valid(self) -> bool {
        is_count(self.count, self.ranges.len()) && all_valid(range_format(), self.ranges)
    }
}

pub open spec fn ranges_format() -> Format<Ranges> {
    Format {
        bytes: |x: Ranges| x.bytes(),
        strings: |x: Ranges| Seq::empty(),
        valid: |x: Ranges| x.valid(),
    }
}

/// What is deleted of one client.
pub struct Deleted {
    pub client: Seq<u8>,
    pub ranges: Ranges,
}

pub open spec fn deleted_format() -> Format<Deleted> {
    Format {
        bytes: |x: Deleted| x.client + x.ranges.bytes(),
        strings: |x: Deleted| Seq::empty(),
        valid: |x: Deleted| is_unsigned(x.client) && x.ranges.valid(),
    }
}

/// What is deleted, of how many clients.
pub struct DeleteSet {
    pub count: Seq<u8>,
    pub clients: Seq<Deleted>,
}

impl DeleteSet {
    pub open spec fn bytes(self) -> Seq<u8> {
        self.count + all_bytes(deleted_format(), self.clients)
    }

    pub open spec fn valid(self) -> bool {
        is_count(self.count, self.clients.len()) && all_valid(deleted_format(), self.clients)
    }
}

pub open spec fn delete_set_format() -> Format<DeleteSet> {
    Format {
        bytes: |x: DeleteSet| x.bytes(),
        strings: |x: DeleteSet| Seq::empty(),
        valid: |x: DeleteSet| x.valid(),
    }
}

/// A whole update: the blocks of each client, and what is deleted.
pub struct Update {
    pub count: Seq<u8>,
    pub clients: Seq<Client>,
    pub deleted: DeleteSet,
}

impl Update {
    pub open spec fn bytes(self) -> Seq<u8> {
        self.count + all_bytes(client_format(), self.clients) + self.deleted.bytes()
    }

    pub open spec fn strings(self) -> Seq<Seq<u8>> {
        all_strings(client_format(), self.clients)
    }

    pub open spec fn valid(self) -> bool {
        &&& is_count(self.count, self.clients.len())
        &&& all_valid(client_format(), self.clients)
        &&& self.deleted.valid()
    }
}

} // verus!
