//! What the catalog knows of tablespaces, schemas, tables, columns and buffer pools.

use vstd::prelude::*;

verus! {

/// The least length of a `CHAR` or `VARCHAR` column.
pub const MIN_CHAR_LENGTH: u64 = 1;

/// The greatest length of a `CHAR` or `VARCHAR` column, in bytes.
pub const MAX_CHAR_LENGTH: u64 = 32672;

/// The type of a column.
#[derive(Debug, Clone, Copy, PartialEq, Eq, Structural)]
pub enum DataType {
    SmallInt,
    Integer,
    BigInt,
    Char(u16),
    Varchar(u16),
    Double,
    Timestamp,
}

/// A tablespace.
#[derive(Debug, Clone)]
pub struct Tablespace {
    pub tbspaceid: i32,
    pub tbspace: String,
    pub tbspacetype: String,
    pub datatype: String,
    pub pagesize: i32,
    pub state: String,
    pub bufferpoolid: i32,
}

/// The contents of a [`Tablespace`].
pub struct TablespaceDef {
    pub tbspaceid: i32,
    pub tbspace: Seq<char>,
    pub tbspacetype: Seq<char>,
    pub datatype: Seq<char>,
    pub pagesize: i32,
    pub state: Seq<char>,
    pub bufferpoolid: i32,
}

impl View for Tablespace {
    type V = TablespaceDef;

    open spec fn view(&self) -> TablespaceDef {
        TablespaceDef {
            tbspaceid: self.tbspaceid,
            tbspace: self.tbspace@,
            tbspacetype: self.tbspacetype@,
            datatype: self.datatype@,
            pagesize: self.pagesize,
            state: self.state@,
            bufferpoolid: self.bufferpoolid,
        }
    }
}

/// A schema.
#[derive(Debug, Clone)]
pub struct Schema {
    pub name: String,
}

impl View for Schema {
    type V = Seq<char>;

    open spec fn view(&self) -> Seq<char> {
        self.name@
    }
}

/// A table.
#[derive(Debug, Clone)]
pub struct Table {
    pub tableid: i32,
    pub name: String,
    pub schemaname: String,
    pub tbspaceid: i16,
    pub colcount: i16,
}

/// The contents of a [`Table`].
pub struct TableDef {
    pub tableid: i32,
    pub name: Seq<char>,
    pub schemaname: Seq<char>,
    pub tbspaceid: i16,
    pub colcount: i16,
}

impl View for Table {
    type V = TableDef;

    open spec fn view(&self) -> TableDef {
        TableDef {
            tableid: self.tableid,
            name: self.name@,
            schemaname: self.schemaname@,
            tbspaceid: self.tbspaceid,
            colcount: self.colcount,
        }
    }
}

/// A column.
#[derive(Debug, Clone)]
pub struct Column {
    pub name: String,
    pub tabname: String,
    pub schemaname: String,
    pub ordinal: i16,
    pub typename: String,
    pub nullable: bool,
}

/// The contents of a [`Column`].
pub struct ColumnDef {
    pub name: Seq<char>,
    pub tabname: Seq<char>,
    pub schemaname: Seq<char>,
    pub ordinal: i16,
    pub typename: Seq<char>,
    pub nullable: bool,
}

impl View for Column {
    type V = ColumnDef;

    open spec fn view(&self) -> ColumnDef {
        ColumnDef {
            name: self.name@,
            tabname: self.tabname@,
            schemaname: self.schemaname@,
            ordinal: self.ordinal,
            typename: self.typename@,
            nullable: self.nullable,
        }
    }
}

impl Column {
    /// A copy of the column.
    pub fn copy(&self) -> (r: Self)
        ensures
            r@ == self@,
    {
        Column {
            name: self.name.clone(),
            tabname: self.tabname.clone(),
            schemaname: self.schemaname.clone(),
            ordinal: self.ordinal,
            typename: self.typename.clone(),
            nullable: self.nullable,
        }
    }
}

/// A buffer pool.
#[derive(Debug, Clone)]
pub struct BufferPool {
    pub bpid: i32,
    pub bpname: String,
    pub pagesize: i32,
    pub npages: i32,
}

/// The contents of a [`BufferPool`].
pub struct BufferPoolDef {
    pub bpid: i32,
    pub bpname: Seq<char>,
    pub pagesize: i32,
    pub npages: i32,
}

impl View for BufferPool {
    type V = BufferPoolDef;

    open spec fn view(&self) -> BufferPoolDef {
        BufferPoolDef {
            bpid: self.bpid,
            bpname: self.bpname@,
            pagesize: self.pagesize,
            npages: self.npages,
        }
    }
}

/// Everything that the catalog knows.
#[derive(Debug)]
pub struct Catalog {
    pub tablespaces: Vec<Tablespace>,
    pub schemas: Vec<Schema>,
    pub tables: Vec<Table>,
    pub columns: Vec<Column>,
    pub bufferpools: Vec<BufferPool>,
}

/// The contents of a [`Catalog`].
pub struct CatalogDef {
    pub tablespaces: Seq<TablespaceDef>,
    pub schemas: Seq<Seq<char>>,
    pub tables: Seq<TableDef>,
    pub columns: Seq<ColumnDef>,
    pub bufferpools: Seq<BufferPoolDef>,
}

/// The contents of some columns.
pub open spec fn columns_view(v: Seq<Column>) -> Seq<ColumnDef> {
    Seq::new(v.len(), |i: int| v[i]@)
}

impl View for Catalog {
    type V = CatalogDef;

    open spec fn view(&self) -> CatalogDef {
        CatalogDef {
            tablespaces: Seq::new(self.tablespaces@.len(), |i: int| self.tablespaces@[i]@),
            schemas: Seq::new(self.schemas@.len(), |i: int| self.schemas@[i]@),
            tables: Seq::new(self.tables@.len(), |i: int| self.tables@[i]@),
            columns: columns_view(self.columns@),
            bufferpools: Seq::new(self.bufferpools@.len(), |i: int| self.bufferpools@[i]@),
        }
    }
}

} // verus!
