use vstd::prelude::*;

use crate::decoder::{DictionaryDecoder, ListDecoder};
use crate::error::DecodingError;

verus! {

/// The node a cursor has just reached. Scalars borrow their bytes from the input; a list or a
/// dictionary is a handle through which the cursor reads the container's contents.
pub enum Object<'obj, 'de> {
    ByteString(&'de [u8]),
    Integer(&'de [u8]),
    List(ListDecoder<'obj, 'de>),
    Dictionary(DictionaryDecoder<'obj, 'de>),
}

impl<'obj, 'de> Object<'obj, 'de> {
    /// The name of this object's shape.
    pub open spec fn spec_name(&self) -> &'static str {
        match self {
            Object::ByteString(_) => "ByteString",
            Object::Integer(_) => "Integer",
            Object::List(_) => "List",
            Object::Dictionary(_) => "Dictionary",
        }
    }

    pub fn name(&self) -> (r: &'static str)
        ensures
            r == self.spec_name(),
    {
        match self {
            Object::ByteString(_) => "ByteString",
            Object::Integer(_) => "Integer",
            Object::List(_) => "List",
            Object::Dictionary(_) => "Dictionary",
        }
    }

    pub fn byte_string(self) -> (r: Option<&'de [u8]>)
        ensures
            match self {
                Object::ByteString(b) => r == Some(b),
                _ => r is None,
            },
    {
        match self {
            Object::ByteString(byte_string) => Some(byte_string),
            _ => None,
        }
    }

    pub fn is_byte_string(&self) -> (r: bool)
        ensures
            r == self is ByteString,
    {
        matches!(*self, Object::ByteString(_))
    }

    pub fn try_byte_string(self) -> (r: Result<&'de [u8], DecodingError>)
        ensures
            match self {
                Object::ByteString(b) => r == Ok::<&'de [u8], DecodingError>(b),
                _ => r == Err::<&'de [u8], DecodingError>(
                    DecodingError::UnexpectedObject {
                        expected_object: "ByteString",
                        actual_object: self.spec_name(),
                    },
                ),
            },
    {
        let name = self.name();
        match self {
            Object::ByteString(byte_string) => Ok(byte_string),
            _ => Err(DecodingError::unexpected_object("ByteString", name)),
        }
    }

    pub fn integer(self) -> (r: Option<&'de [u8]>)
        ensures
            match self {
                Object::Integer(i) => r == Some(i),
                _ => r is None,
            },
    {
        match self {
            Object::Integer(integer) => Some(integer),
            _ => None,
        }
    }

    pub fn is_integer(&self) -> (r: bool)
        ensures
            r == self is Integer,
    {
        matches!(*self, Object::Integer(_))
    }

    pub fn try_integer(self) -> (r: Result<&'de [u8], DecodingError>)
        ensures
            match self {
                Object::Integer(i) => r == Ok::<&'de [u8], DecodingError>(i),
                _ => r == Err::<&'de [u8], DecodingError>(
                    DecodingError::UnexpectedObject {
                        expected_object: "Integer",
                        actual_object: self.spec_name(),
                    },
                ),
            },
    {
        let name = self.name();
        match self {
            Object::Integer(integer) => Ok(integer),
            _ => Err(DecodingError::unexpected_object("Integer", name)),
        }
    }

    pub fn list(self) -> (r: Option<ListDecoder<'obj, 'de>>)
        ensures
            match self {
                Object::List(l) => r == Some(l),
                _ => r is None,
            },
    {
        match self {
            Object::List(list_decoder) => Some(list_decoder),
            _ => None,
        }
    }

    pub fn is_list(&self) -> (r: bool)
        ensures
            r == self is List,
    {
        matches!(*self, Object::List(_))
    }

    pub fn try_list(self) -> (r: Result<ListDecoder<'obj, 'de>, DecodingError>)
        ensures
            match self {
                Object::List(l) => r == Ok::<ListDecoder<'obj, 'de>, DecodingError>(l),
                _ => r == Err::<ListDecoder<'obj, 'de>, DecodingError>(
                    DecodingError::UnexpectedObject {
                        expected_object: "List",
                        actual_object: self.spec_name(),
                    },
                ),
            },
    {
        let name = self.name();
        match self {
            Object::List(list_decoder) => Ok(list_decoder),
            _ => Err(DecodingError::unexpected_object("List", name)),
        }
    }

    pub fn dictionary(self) -> (r: Option<DictionaryDecoder<'obj, 'de>>)
        ensures
            match self {
                Object::Dictionary(d) => r == Some(d),
                _ => r is None,
            },
    {
        match self {
            Object::Dictionary(dictionary_decoder) => Some(dictionary_decoder),
            _ => None,
        }
    }

    pub fn is_dictionary(&self) -> (r: bool)
        ensures
            r == self is Dictionary,
    {
        matches!(*self, Object::Dictionary(_))
    }

    pub fn try_dictionary(self) -> (r: Result<DictionaryDecoder<'obj, 'de>, DecodingError>)
        ensures
            match self {
                Object::Dictionary(d) => r == Ok::<DictionaryDecoder<'obj, 'de>, DecodingError>(d),
                _ => r == Err::<DictionaryDecoder<'obj, 'de>, DecodingError>(
                    DecodingError::UnexpectedObject {
                        expected_object: "Dictionary",
                        actual_object: self.spec_name(),
                    },
                ),
            },
    {
        let name = self.name();
        match self {
            Object::Dictionary(dictionary_decoder) => Ok(dictionary_decoder),
            _ => Err(DecodingError::unexpected_object("Dictionary", name)),
        }
    }
}

} // verus!
