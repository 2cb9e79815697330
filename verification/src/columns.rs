//! Record batches of Arrow: their schemas, the columns that go into them and the
//! columns that are read out of them.
use std::sync::Arc;

use arrow_array::builder::{ListBuilder, StringBuilder};
use arrow_array::types::{ArrowPrimitiveType, Float32Type};
use arrow_array::{
    Array, ArrayRef, FixedSizeListArray, Float32Array, ListArray, RecordBatch, StringArray,
    UInt32Array,
};
use arrow_schema::{ArrowError, DataType, Field, Schema, SchemaRef};
use vstd::prelude::*;
use vstd::utf8::*;

use crate::float::Single;
use crate::text::views;

verus! {

// ---------------------------------------------------------------- schemas

/// The names and types of the columns of a batch: `arrow_schema::Schema`.
#[verifier::external_type_specification]
#[verifier::external_body]
pub struct ExSchema(Schema);

/// One column of a schema: `arrow_schema::Field`.
#[verifier::external_type_specification]
#[verifier::external_body]
pub struct ExField(Field);

/// The type of a column: `arrow_schema::DataType`.
#[verifier::external_type_specification]
#[verifier::external_body]
pub struct ExDataType(DataType);

/// Why a batch could not be built: `arrow_schema::ArrowError`.
#[verifier::external_type_specification]
#[verifier::external_body]
pub struct ExArrowError(ArrowError);

/// What a column type is.
pub enum TypeView {
    /// UTF-8 text.
    Text,
    /// 32-bit numbers without sign.
    Number,
    /// Single-precision numbers.
    Single,
    /// Lists of items.
    List(Box<FieldView>),
    /// Lists of a fixed number of items.
    Vector(Box<FieldView>, i32),
    /// Any other type.
    Other,
}

/// What a field says.
pub struct FieldView {
    pub name: Seq<char>,
    pub data: TypeView,
    pub nullable: bool,
    /// Whether the field carries metadata.
    pub annotated: bool,
}

/// What an outside type is.
pub uninterp spec fn data_type_view(data: DataType) -> TypeView;

/// What an outside field says.
pub uninterp spec fn field_view(field: Field) -> FieldView;

/// The fields of an outside schema, in order.
pub uninterp spec fn schema_fields(schema: Schema) -> Seq<FieldView>;

/// A column type without items.
pub enum Scalar {
    Text,
    Number,
    Single,
}

/// What a scalar type is.
pub open spec fn scalar_view(scalar: Scalar) -> TypeView {
    match scalar {
        Scalar::Text => TypeView::Text,
        Scalar::Number => TypeView::Number,
        Scalar::Single => TypeView::Single,
    }
}

/// The outside type for a scalar: `DataType::Utf8`, `DataType::UInt32` or
/// `DataType::Float32`.
#[verifier::external_body]
pub(crate) fn scalar_type(scalar: Scalar) -> (data: DataType)
    ensures
        data_type_view(data) == scalar_view(scalar),
{
    match scalar {
        Scalar::Text => DataType::Utf8,
        Scalar::Number => DataType::UInt32,
        Scalar::Single => DataType::Float32,
    }
}

/// The outside type of lists, `DataType::List`, over the given item.
#[verifier::external_body]
pub(crate) fn list_type(item: Field) -> (data: DataType)
    ensures
        data_type_view(data) == TypeView::List(Box::new(field_view(item))),
{
    DataType::List(Arc::new(item))
}

/// The outside type of lists of a fixed size, `DataType::FixedSizeList`, over the
/// given item.
#[verifier::external_body]
pub(crate) fn vector_type(item: Field, size: i32) -> (data: DataType)
    ensures
        data_type_view(data) == TypeView::Vector(Box::new(field_view(item)), size),
{
    DataType::FixedSizeList(Arc::new(item), size)
}

/// `Field::new`: a field with the given name, type and nullability, without
/// metadata.
#[verifier::external_body]
pub(crate) fn new_field(name: &str, data: DataType, nullable: bool) -> (field: Field)
    ensures
        field_view(field) == (FieldView {
            name: name@,
            data: data_type_view(data),
            nullable,
            annotated: false,
        }),
{
    Field::new(name, data, nullable)
}

/// What the fields of a list say.
pub open spec fn field_views(fields: Seq<Field>) -> Seq<FieldView> {
    fields.map_values(|field: Field| field_view(field))
}

/// `Schema::new`: the schema with the given fields, in order.
#[verifier::external_body]
pub(crate) fn new_schema(fields: Vec<Field>) -> (schema: Schema)
    ensures
        schema_fields(schema) == field_views(fields@),
{
    Schema::new(fields)
}

// ---------------------------------------------------------------- contents

/// What a column holds, row by row.
#[verifier::ext_equal]
pub enum ColumnData {
    /// Texts.
    Texts(Seq<Seq<char>>),
    /// 32-bit numbers without sign.
    Numbers(Seq<u32>),
    /// Single-precision numbers, as their bit patterns.
    Singles(Seq<u32>),
    /// Lists of texts, in which a text can be missing.
    TextLists(Seq<Seq<Option<Seq<char>>>>),
    /// Lists of something else, and how many.
    OtherLists(nat),
    /// Lists of a fixed number of singles, and that number.
    Vectors(Seq<Seq<u32>>, i32),
    /// Lists of a fixed number of something else, and how many lists.
    OtherVectors(nat),
    /// Anything else, and how many rows.
    Other(nat),
}

/// How many rows a column has.
pub open spec fn row_count(data: ColumnData) -> nat {
    match data {
        ColumnData::Texts(rows) => rows.len(),
        ColumnData::Numbers(rows) => rows.len(),
        ColumnData::Singles(rows) => rows.len(),
        ColumnData::TextLists(rows) => rows.len(),
        ColumnData::OtherLists(rows) => rows,
        ColumnData::Vectors(rows, _) => rows.len(),
        ColumnData::OtherVectors(rows) => rows,
        ColumnData::Other(rows) => rows,
    }
}

/// The item of a list column: nullable, called `item`, and without metadata.
pub open spec fn item_field(data: TypeView) -> FieldView {
    FieldView { name: "item"@, data, nullable: true, annotated: false }
}

/// The type of a column that was built here.
pub open spec fn type_of(data: ColumnData) -> Option<TypeView> {
    match data {
        ColumnData::Texts(_) => Some(TypeView::Text),
        ColumnData::Numbers(_) => Some(TypeView::Number),
        ColumnData::TextLists(_) => Some(TypeView::List(Box::new(item_field(TypeView::Text)))),
        ColumnData::Vectors(_, size) => Some(
            TypeView::Vector(Box::new(item_field(TypeView::Single)), size),
        ),
        _ => None,
    }
}

// ---------------------------------------------------------------- building

/// A column that can go into a batch. It holds an `arrow_array::ArrayRef`, and
/// comes from the functions below alone.
#[verifier::external_body]
pub struct Column {
    array: ArrayRef,
}

/// What a column holds.
pub uninterp spec fn column_data(column: Column) -> ColumnData;

/// How many bytes texts take in all.
pub open spec fn total_bytes(texts: Seq<Seq<char>>) -> nat
    decreases texts.len(),
{
    if texts.len() == 0 {
        0
    } else {
        total_bytes(texts.drop_last()) + encode_utf8(texts.last()).len()
    }
}

/// `StringArray::from_iter_values`: the column of the given texts, in order. It
/// panics where the texts take more bytes than an offset can count.
#[verifier::external_body]
pub(crate) fn text_column(texts: &Vec<String>) -> (column: Column)
    requires
        total_bytes(views(texts@)) <= i32::MAX,
    ensures
        column_data(column) == ColumnData::Texts(views(texts@)),
{
    Column { array: Arc::new(StringArray::from_iter_values(texts.iter())) }
}

/// `UInt32Array::from_iter_values`: the column of the given numbers, in order.
#[verifier::external_body]
pub(crate) fn number_column(numbers: &Vec<u32>) -> (column: Column)
    ensures
        column_data(column) == ColumnData::Numbers(numbers@),
{
    Column { array: Arc::new(UInt32Array::from_iter_values(numbers.iter().copied())) }
}

/// The bit patterns of a list of singles.
pub open spec fn bits_of(singles: Seq<Single>) -> Seq<u32> {
    singles.map_values(|single: Single| single.bits)
}

/// The bit patterns of vectors, row by row.
pub open spec fn vector_bits(vectors: Seq<Vec<Single>>) -> Seq<Seq<u32>> {
    vectors.map_values(|vector: Vec<Single>| bits_of(vector@))
}

/// The rows one after the other.
pub open spec fn flattened<T>(rows: Seq<Seq<T>>) -> Seq<T>
    decreases rows.len(),
{
    if rows.len() == 0 {
        Seq::empty()
    } else {
        flattened(rows.drop_last()) + rows.last()
    }
}

/// A sequence cut into rows of `size` items; without rows where `size` is zero.
pub open spec fn grouped<T>(items: Seq<T>, size: nat) -> Seq<Seq<T>> {
    if size == 0 {
        Seq::empty()
    } else {
        Seq::new(
            items.len() / size,
            |row: int| items.subrange(row * size, (row + 1) * size),
        )
    }
}

/// `FixedSizeListArray::from_iter_primitive` over `Float32Type`: the values of all
/// vectors one after the other, cut into lists of `size`. It panics where the size
/// is negative or the values do not come to `size` for each vector, and with a
/// size of zero the column has no rows.
#[verifier::external_body]
pub(crate) fn vector_column(vectors: &Vec<Vec<Single>>, size: i32) -> (column: Column)
    requires
        size >= 0,
        flattened(vector_bits(vectors@)).len() == vectors.len() * size,
        4 * (vectors.len() * size) + 64 <= isize::MAX,
    ensures
        column_data(column) == ColumnData::Vectors(
            grouped(flattened(vector_bits(vectors@)), size as nat),
            size,
        ),
{
    let rows = vectors.iter().map(
        |vector|
            Some(
                vector.iter().map(
                    |single|
                        Some(<<Float32Type as ArrowPrimitiveType>::Native>::from_bits(single.bits)),
                ),
            ),
    );
    Column { array: Arc::new(FixedSizeListArray::from_iter_primitive::<Float32Type, _, _>(rows, size)) }
}

/// A builder of columns of text lists. It holds a
/// `ListBuilder<StringBuilder>` of `arrow_array::builder`.
#[verifier::external_body]
pub struct TextLists {
    builder: ListBuilder<StringBuilder>,
}

/// The lists that a builder has closed.
pub uninterp spec fn closed_lists(builder: TextLists) -> Seq<Seq<Seq<char>>>;

/// The texts of the list that a builder has open.
pub uninterp spec fn open_list(builder: TextLists) -> Seq<Seq<char>>;

/// All texts that a builder holds.
pub open spec fn texts_in(builder: TextLists) -> Seq<Seq<char>> {
    flattened(closed_lists(builder)) + open_list(builder)
}

/// A list in which no text is missing.
pub open spec fn all_present(texts: Seq<Seq<char>>) -> Seq<Option<Seq<char>>> {
    texts.map_values(|text: Seq<char>| Some(text))
}

/// `ListBuilder::new` over `StringBuilder::new`: nothing is closed, and the open
/// list is empty.
#[verifier::external_body]
pub(crate) fn new_text_lists() -> (builder: TextLists)
    ensures
        closed_lists(builder) == Seq::<Seq<Seq<char>>>::empty(),
        open_list(builder) == Seq::<Seq<char>>::empty(),
{
    TextLists { builder: ListBuilder::new(StringBuilder::new()) }
}

/// `StringBuilder::append_value` on the values of the list builder: the text joins
/// the open list. It panics where all texts together take more bytes than an
/// offset can count.
#[verifier::external_body]
pub(crate) fn append_text(builder: &mut TextLists, text: &str)
    requires
        total_bytes(texts_in(*old(builder)).push(text@)) <= i32::MAX,
    ensures
        closed_lists(*final(builder)) == closed_lists(*old(builder)),
        open_list(*final(builder)) == open_list(*old(builder)).push(text@),
{
    builder.builder.values().append_value(text)
}

/// `ListBuilder::append` with `true`: the open list is closed, and an empty one
/// opened. It panics where there are more texts than an offset can count.
#[verifier::external_body]
pub(crate) fn close_list(builder: &mut TextLists)
    requires
        texts_in(*old(builder)).len() <= i32::MAX,
    ensures
        closed_lists(*final(builder)) == closed_lists(*old(builder)).push(open_list(*old(builder))),
        open_list(*final(builder)) == Seq::<Seq<char>>::empty(),
{
    builder.builder.append(true)
}

/// `ListBuilder::finish`: the column of the closed lists, in order.
#[verifier::external_body]
pub(crate) fn finish_lists(builder: TextLists) -> (column: Column)
    ensures
        column_data(column) == ColumnData::TextLists(
            closed_lists(builder).map_values(|texts: Seq<Seq<char>>| all_present(texts)),
        ),
{
    let mut lists = builder;
    Column { array: Arc::new(lists.builder.finish()) }
}

// ---------------------------------------------------------------- batches

/// A batch of rows in columns. It holds an `arrow_array::RecordBatch`.
#[verifier::external_body]
pub struct Batch {
    pub records: RecordBatch,
}

/// The columns of a batch by name, each as the accessors of its array return its
/// values. Of two columns with one name it is the first.
pub uninterp spec fn batch_columns(batch: Batch) -> Map<Seq<char>, ColumnData>;

/// How many rows a batch has.
pub uninterp spec fn batch_rows(batch: Batch) -> nat;

/// What columns hold.
pub open spec fn columns_data(columns: Seq<Column>) -> Seq<ColumnData> {
    columns.map_values(|column: Column| column_data(column))
}

/// Columns that go with a schema: one for each field, of its type, and all with
/// the same number of rows.
pub open spec fn fits_schema(fields: Seq<FieldView>, columns: Seq<ColumnData>) -> bool {
    &&& fields.len() == columns.len() > 0
    &&& forall|i: int|
        0 <= i < columns.len() ==> row_count(#[trigger] columns[i]) == row_count(columns[0])
            && type_of(columns[i]) == Some(fields[i].data)
}

/// The names of fields.
pub open spec fn field_names(fields: Seq<FieldView>) -> Seq<Seq<char>> {
    fields.map_values(|field: FieldView| field.name)
}

/// Columns by the names of their fields.
pub open spec fn by_name(names: Seq<Seq<char>>, columns: Seq<ColumnData>) -> Map<
    Seq<char>,
    ColumnData,
> {
    Map::new(
        |name: Seq<char>| names.contains(name),
        |name: Seq<char>| columns[names.index_of_first(name)->0],
    )
}

/// `RecordBatch::try_new`: the batch of the columns under the names of the schema.
/// It succeeds where the columns fit the schema; columns built here hold no nulls,
/// which it would refuse in a field that is not nullable.
#[verifier::external_body]
pub(crate) fn new_batch(schema: SchemaRef, columns: Vec<Column>) -> (batch: Result<
    Batch,
    ArrowError,
>)
    ensures
        batch is Ok == fits_schema(schema_fields(*schema), columns_data(columns@)),
        batch matches Ok(b) ==> batch_columns(b) == by_name(
            field_names(schema_fields(*schema)),
            columns_data(columns@),
        ),
        batch matches Ok(b) ==> batch_rows(b) == row_count(columns_data(columns@)[0]),
{
    let arrays = columns.into_iter().map(|column| column.array).collect();
    RecordBatch::try_new(schema, arrays).map(|records| Batch { records })
}

// ---------------------------------------------------------------- reading

/// `RecordBatch::num_rows`: how many rows a batch has.
#[verifier::external_body]
pub(crate) fn count_rows(batch: &Batch) -> (rows: usize)
    ensures
        rows == batch_rows(*batch),
{
    batch.records.num_rows()
}

/// The column of a name, if there is one.
pub open spec fn column_at(columns: Map<Seq<char>, ColumnData>, name: Seq<char>) -> ColumnData {
    if columns.dom().contains(name) {
        columns[name]
    } else {
        ColumnData::Other(0)
    }
}

/// What texts say, if there are any.
pub open spec fn texts_view(texts: Option<Vec<String>>) -> Option<Seq<Seq<char>>> {
    match texts {
        Some(list) => Some(views(list@)),
        None => None,
    }
}

/// The rows of a text column.
pub open spec fn as_texts(data: ColumnData) -> Option<Seq<Seq<char>>> {
    match data {
        ColumnData::Texts(rows) => Some(rows),
        _ => None,
    }
}

/// `RecordBatch::column_by_name` and `StringArray::value`: the texts of the named
/// column, if there is such a column and it holds texts.
#[verifier::external_body]
pub(crate) fn read_texts(batch: &Batch, name: &str) -> (texts: Option<Vec<String>>)
    ensures
        texts_view(texts) == as_texts(column_at(batch_columns(*batch), name@)),
        texts is Some ==> texts->0.len() == batch_rows(*batch),
{
    let column: &StringArray = batch.records.column_by_name(name)?.as_any().downcast_ref()?;
    Some((0..column.len()).map(|row| column.value(row).to_owned()).collect())
}

/// What numbers are there, if any.
pub open spec fn numbers_view(numbers: Option<Vec<u32>>) -> Option<Seq<u32>> {
    match numbers {
        Some(list) => Some(list@),
        None => None,
    }
}

/// The rows of a number column.
pub open spec fn as_numbers(data: ColumnData) -> Option<Seq<u32>> {
    match data {
        ColumnData::Numbers(rows) => Some(rows),
        _ => None,
    }
}

/// `RecordBatch::column_by_name` and `UInt32Array::value`: the numbers of the named
/// column, if there is such a column and it holds numbers.
#[verifier::external_body]
pub(crate) fn read_numbers(batch: &Batch, name: &str) -> (numbers: Option<Vec<u32>>)
    ensures
        numbers_view(numbers) == as_numbers(column_at(batch_columns(*batch), name@)),
        numbers is Some ==> numbers->0.len() == batch_rows(*batch),
{
    let column: &UInt32Array = batch.records.column_by_name(name)?.as_any().downcast_ref()?;
    Some((0..column.len()).map(|row| column.value(row)).collect())
}

/// The bit patterns of singles, if there are any.
pub open spec fn singles_view(singles: Option<Vec<Single>>) -> Option<Seq<u32>> {
    match singles {
        Some(list) => Some(bits_of(list@)),
        None => None,
    }
}

/// The rows of a column of singles.
pub open spec fn as_singles(data: ColumnData) -> Option<Seq<u32>> {
    match data {
        ColumnData::Singles(rows) => Some(rows),
        _ => None,
    }
}

/// `RecordBatch::column_by_name` and `Float32Array::value`: the singles of the
/// named column, if there is such a column and it holds singles.
#[verifier::external_body]
pub(crate) fn read_singles(batch: &Batch, name: &str) -> (singles: Option<Vec<Single>>)
    ensures
        singles_view(singles) == as_singles(column_at(batch_columns(*batch), name@)),
        singles is Some ==> singles->0.len() == batch_rows(*batch),
{
    let column: &Float32Array = batch.records.column_by_name(name)?.as_any().downcast_ref()?;
    Some((0..column.len()).map(|row| Single { bits: column.value(row).to_bits() }).collect())
}

/// What a text that can be missing says.
pub open spec fn text_view(text: Option<String>) -> Option<Seq<char>> {
    match text {
        Some(t) => Some(t@),
        None => None,
    }
}

/// What a list of texts says, where it is one.
pub open spec fn list_view(list: Option<Vec<Option<String>>>) -> Option<Seq<Option<Seq<char>>>> {
    match list {
        Some(texts) => Some(texts@.map_values(|text: Option<String>| text_view(text))),
        None => None,
    }
}

/// What lists say, if there are any.
pub open spec fn lists_view(lists: Option<Vec<Option<Vec<Option<String>>>>>) -> Option<
    Seq<Option<Seq<Option<Seq<char>>>>>,
> {
    match lists {
        Some(rows) => Some(rows@.map_values(|row: Option<Vec<Option<String>>>| list_view(row))),
        None => None,
    }
}

/// The rows of a list column; a row is `None` where its items are not texts.
pub open spec fn as_lists(data: ColumnData) -> Option<Seq<Option<Seq<Option<Seq<char>>>>>> {
    match data {
        ColumnData::TextLists(rows) => Some(
            rows.map_values(|row: Seq<Option<Seq<char>>>| Some(row)),
        ),
        ColumnData::OtherLists(rows) => Some(Seq::new(rows, |row: int| None)),
        _ => None,
    }
}

/// `RecordBatch::column_by_name`, `ListArray::value` and `StringArray::iter`: the
/// lists of the named column, if there is such a column and it holds lists. A list
/// is `None` where its items are not texts.
#[verifier::external_body]
pub(crate) fn read_lists(batch: &Batch, name: &str) -> (lists: Option<
    Vec<Option<Vec<Option<String>>>>,
>)
    ensures
        lists_view(lists) == as_lists(column_at(batch_columns(*batch), name@)),
        lists is Some ==> lists->0.len() == batch_rows(*batch),
{
    let column: &ListArray = batch.records.column_by_name(name)?.as_any().downcast_ref()?;
    let rows = (0..column.len()).map(|row| column.value(row));
    Some(
        rows.map(
            |row|
                row.as_any().downcast_ref::<StringArray>().map(
                    |texts| texts.iter().map(|text| text.map(str::to_owned)).collect(),
                ),
        ).collect(),
    )
}

/// The bit patterns of a vector, where it is one.
pub open spec fn vector_view(vector: Option<Vec<Single>>) -> Option<Seq<u32>> {
    match vector {
        Some(singles) => Some(bits_of(singles@)),
        None => None,
    }
}

/// The bit patterns of vectors, if there are any.
pub open spec fn vectors_view(vectors: Option<Vec<Option<Vec<Single>>>>) -> Option<
    Seq<Option<Seq<u32>>>,
> {
    match vectors {
        Some(rows) => Some(rows@.map_values(|row: Option<Vec<Single>>| vector_view(row))),
        None => None,
    }
}

/// The rows of a column of vectors; a row is `None` where its items are not
/// singles.
pub open spec fn as_vectors(data: ColumnData) -> Option<Seq<Option<Seq<u32>>>> {
    match data {
        ColumnData::Vectors(rows, _) => Some(rows.map_values(|row: Seq<u32>| Some(row))),
        ColumnData::OtherVectors(rows) => Some(Seq::new(rows, |row: int| None)),
        _ => None,
    }
}

/// `RecordBatch::column_by_name`, `FixedSizeListArray::value` and
/// `Float32Array::value`: the vectors of the named column, if there is such a
/// column and it holds lists of a fixed size. A vector is `None` where its items
/// are not singles.
#[verifier::external_body]
pub(crate) fn read_vectors(batch: &Batch, name: &str) -> (vectors: Option<Vec<Option<Vec<Single>>>>)
    ensures
        vectors_view(vectors) == as_vectors(column_at(batch_columns(*batch), name@)),
        vectors is Some ==> vectors->0.len() == batch_rows(*batch),
{
    let column: &FixedSizeListArray = batch.records.column_by_name(name)?.as_any().downcast_ref()?;
    let rows = (0..column.len()).map(|row| column.value(row));
    Some(
        rows.map(
            |row|
                row.as_any().downcast_ref::<Float32Array>().map(
                    |s| (0..s.len()).map(|i| Single { bits: s.value(i).to_bits() }).collect(),
                ),
        ).collect(),
    )
}

} // verus!
