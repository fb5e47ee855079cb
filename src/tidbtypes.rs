use vstd::prelude::*;

verus! {

/// A schema name as written and in lower case.
#[allow(non_snake_case)]
#[derive(Debug, Clone)]
pub struct CIStr {
    pub O: String,
    pub L: String,
}

/// Lifecycle state of a schema object.
pub type SchemaState = u8;

pub const StateNone: SchemaState = 0;
pub const StateDeleteOnly: SchemaState = 1;
pub const StateWriteOnly: SchemaState = 2;
pub const StateWriteReorganization: SchemaState = 3;
pub const StateDeleteReorganization: SchemaState = 4;
pub const StatePublic: SchemaState = 5;
pub const StateReplicaOnly: SchemaState = 6;
pub const StateGlobalTxnOnly: SchemaState = 7;

/// Kind of an index.
pub type IndexType = i32;

pub const IndexTypeInvalid: IndexType = 0;
pub const IndexTypeBtree: IndexType = 1;
pub const IndexTypeHash: IndexType = 2;
pub const IndexTypeRtree: IndexType = 3;

/// Column type codes.
pub const TP_UNSPECIFIED: u8 = 0;
pub const TP_TINY: u8 = 1;
pub const TP_SHORT: u8 = 2;
pub const TP_LONG: u8 = 3;
pub const TP_FLOAT: u8 = 4;
pub const TP_DOUBLE: u8 = 5;
pub const TP_NULL: u8 = 6;
pub const TP_TIMESTAMP: u8 = 7;
pub const TP_LONG_LONG: u8 = 8;
pub const TP_INT24: u8 = 9;
pub const TP_DATE: u8 = 10;
pub const TP_DURATION: u8 = 11;
pub const TP_DATETIME: u8 = 12;
pub const TP_YEAR: u8 = 13;
pub const TP_NEW_DATE: u8 = 14;
pub const TP_VAR_CHAR: u8 = 15;
pub const TP_BIT: u8 = 16;
pub const TP_JSON: u8 = 0xf5;
pub const TP_NEW_DECIMAL: u8 = 0xf6;
pub const TP_ENUM: u8 = 0xf7;
pub const TP_SET: u8 = 0xf8;
pub const TP_TINY_BLOB: u8 = 0xf9;
pub const TP_MEDIUM_BLOB: u8 = 0xfa;
pub const TP_LONG_BLOB: u8 = 0xfb;
pub const TP_BLOB: u8 = 0xfc;
pub const TP_VAR_STRING: u8 = 0xfd;
pub const TP_STRING: u8 = 0xfe;
pub const TP_GEOMETRY: u8 = 0xff;

/// Column flag bits.
pub const FLAG_PRI_KEY: u32 = 2;
pub const FLAG_UNSIGNED: u32 = 32;

/// Whether a byte is a known column type code.
pub open spec fn is_known_tp(tp: u8) -> bool {
    tp <= 16 || tp >= 0xf5
}

/// The column type named by a code; codes that name no type read as unspecified.
pub open spec fn tp_of(code: u8) -> u8 {
    if is_known_tp(code) {
        code
    } else {
        TP_UNSPECIFIED
    }
}

/// Reads a column type code.
pub fn field_type_tp_from_u8(code: u8) -> (r: u8)
    ensures
        r == tp_of(code),
{
    if code <= 16 || code >= 0xf5 {
        code
    } else {
        TP_UNSPECIFIED
    }
}

/// A database as its meta record describes it.
#[derive(Debug)]
pub struct DBInfo {
    pub id: i64,
    pub db_name: CIStr,
    pub charset: String,
    pub collate: String,
    pub state: SchemaState,
}

/// A table definition.
#[derive(Debug, Clone)]
pub struct TableInfo {
    pub id: i64,
    pub name: CIStr,
    pub charset: String,
    pub collate: String,
    pub cols: Vec<ColumnInfo>,
    pub index_info: Vec<IndexInfo>,
    pub state: SchemaState,
    pub pk_is_handle: bool,
    pub is_common_handle: bool,
    pub common_handle_version: u16,
    pub comment: String,
    pub auto_inc_id: i64,
    pub auto_id_cache: i64,
    pub update_timestamp: i64,
    pub version: u16,
    pub partition: Option<PartitionInfo>,
}

/// The partitions of a partitioned table.
#[derive(Debug, Clone)]
pub struct PartitionInfo {
    pub definitions: Vec<PartitionDefinition>,
}

/// One partition: its own table id and its name.
#[derive(Debug, Clone)]
pub struct PartitionDefinition {
    pub id: i64,
    pub name: CIStr,
}

/// The type of a column: its type code, flags, length, fractional digits, and
/// the element list of an enum or set.
#[allow(non_snake_case)]
#[derive(Debug, Clone)]
pub struct FieldType {
    pub Tp: u8,
    pub Flag: u32,
    pub Flen: u32,
    pub Decimal: i32,
    pub Charset: String,
    pub Collate: String,
    pub Elems: Vec<String>,
}

impl FieldType {
    /// Whether the type is an enum, a set or a bit string.
    pub open spec fn spec_is_hybrid(&self) -> bool {
        let tp = tp_of(self.Tp);
        tp == TP_ENUM || tp == TP_SET || tp == TP_BIT
    }

    /// Whether the column holds unsigned integers.
    pub open spec fn spec_is_unsigned(&self) -> bool {
        self.Flag & FLAG_UNSIGNED != 0
    }

    /// Whether the column is part of the primary key.
    pub open spec fn spec_has_prikey_flag(&self) -> bool {
        self.Flag & FLAG_PRI_KEY != 0
    }

    #[verifier::when_used_as_spec(spec_is_hybrid)]
    pub fn is_hybrid(&self) -> (r: bool)
        ensures
            r == self.spec_is_hybrid(),
    {
        let tp = field_type_tp_from_u8(self.Tp);
        tp == TP_ENUM || tp == TP_SET || tp == TP_BIT
    }

    #[verifier::when_used_as_spec(spec_is_unsigned)]
    pub fn is_unsigned(&self) -> (r: bool)
        ensures
            r == self.spec_is_unsigned(),
    {
        self.Flag & FLAG_UNSIGNED != 0
    }

    #[verifier::when_used_as_spec(spec_has_prikey_flag)]
    pub fn has_prikey_flag(&self) -> (r: bool)
        ensures
            r == self.spec_has_prikey_flag(),
    {
        self.Flag & FLAG_PRI_KEY != 0
    }
}

/// A column of a table.
#[derive(Debug, Clone)]
pub struct ColumnInfo {
    pub id: i64,
    pub name: CIStr,
    pub offset: i32,
    pub field_type: FieldType,
    pub state: SchemaState,
    pub comment: String,
    pub hidden: bool,
    pub version: u64,
}

/// A column of an index.
#[derive(Debug, Clone)]
pub struct IndexColumn {
    pub name: CIStr,
    pub offset: i32,
    pub length: i32,
}

/// An index of a table; carried along, not read.
#[derive(Debug, Clone)]
pub struct IndexInfo {
    pub id: i64,
    pub idx_name: CIStr,
    pub tbl_name: CIStr,
    pub idx_cols: Vec<IndexColumn>,
    pub state: SchemaState,
    pub comment: String,
    pub index_type: IndexType,
    pub is_unique: bool,
    pub is_primary: bool,
    pub is_invisible: bool,
    pub is_global: bool,
}

/// Whether `c` copies `t` in every field but the id and the partition list: the
/// column and index lists are clones, the other fields equal.
pub open spec fn same_but_id(c: TableInfo, t: TableInfo) -> bool {
    &&& c.name == t.name
    &&& c.charset == t.charset
    &&& c.collate == t.collate
    &&& cloned(t.cols, c.cols)
    &&& cloned(t.index_info, c.index_info)
    &&& c.state == t.state
    &&& c.pk_is_handle == t.pk_is_handle
    &&& c.is_common_handle == t.is_common_handle
    &&& c.common_handle_version == t.common_handle_version
    &&& c.comment == t.comment
    &&& c.auto_inc_id == t.auto_inc_id
    &&& c.auto_id_cache == t.auto_id_cache
    &&& c.update_timestamp == t.update_timestamp
    &&& c.version == t.version
}

impl TableInfo {
    /// Whether the table is partitioned.
    pub fn have_partitions(&self) -> (r: bool)
        ensures
            r == self.partition is Some,
    {
        self.partition.is_some()
    }

    /// One table definition per partition: a copy of this one with the partition's
    /// id and no partition list; none for a table without partitions.
    pub fn get_partiton_table_infos(&self) -> (r: Vec<TableInfo>)
        ensures
            self.partition is None ==> r@.len() == 0,
            self.partition matches Some(p) ==> {
                &&& r@.len() == p.definitions@.len()
                &&& forall|i: int| 0 <= i < r@.len() ==> {
                    &&& (#[trigger] r@[i]).id == p.definitions@[i].id
                    &&& r@[i].partition is None
                    &&& same_but_id(r@[i], *self)
                }
            },
    {
        let mut r: Vec<TableInfo> = Vec::new();
        match &self.partition {
            None => r,
            Some(p) => {
                let mut i: usize = 0;
                while i < p.definitions.len()
                    invariant
                        self.partition == Some(*p),
                        i <= p.definitions@.len(),
                        r@.len() == i,
                        forall|k: int| 0 <= k < i ==> {
                            &&& (#[trigger] r@[k]).id == p.definitions@[k].id
                            &&& r@[k].partition is None
                            &&& same_but_id(r@[k], *self)
                        },
                    decreases p.definitions@.len() - i,
                {
                    let t = TableInfo {
                        id: p.definitions[i].id,
                        name: CIStr { O: self.name.O.clone(), L: self.name.L.clone() },
                        charset: self.charset.clone(),
                        collate: self.collate.clone(),
                        cols: self.cols.clone(),
                        index_info: self.index_info.clone(),
                        state: self.state,
                        pk_is_handle: self.pk_is_handle,
                        is_common_handle: self.is_common_handle,
                        common_handle_version: self.common_handle_version,
                        comment: self.comment.clone(),
                        auto_inc_id: self.auto_inc_id,
                        auto_id_cache: self.auto_id_cache,
                        update_timestamp: self.update_timestamp,
                        version: self.version,
                        partition: None,
                    };
                    r.push(t);
                    i += 1;
                }
                r
            },
        }
    }
}

} // verus!
