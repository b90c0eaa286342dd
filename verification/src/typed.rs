//! A schema decoder paired with a mapping of decoded messages to a typed
//! value.

use vstd::prelude::*;
use crate::error::{Error, Result};
use crate::ros1::message::{decode_fuel, spec_message, tokens_view, Decoded, RosToken};
use crate::stream::SchemaParser;
use crate::types::Schema;
use vstd::utf8::{decode_utf8, valid_utf8};
use crate::ros1::schema::spec_definitions;

verus! {

/// What `parser` decodes from `data`.
pub open spec fn spec_schema_decode(parser: SchemaParser, data: Seq<u8>) -> Decoded {
    match parser {
        SchemaParser::Ros1(p) => spec_message(p.messages(), p.root_type(), data, 0,
            decode_fuel(p.messages().len(), data.len())),
    }
}

/// A schema-aware decoder whose output is mapped to `T`.
#[verifier::reject_recursive_types(T)]
pub struct SchemaTypedParser<T, M: Fn(Vec<RosToken>) -> Result<T>> {
    parser: SchemaParser,
    map: M,
}

impl<T, M: Fn(Vec<RosToken>) -> Result<T>> SchemaTypedParser<T, M> {
    /// The decoder is ready and the mapping accepts every token list.
    #[verifier::type_invariant]
    spec fn inv(&self) -> bool {
        &&& self.parser.well_formed()
        &&& forall|t: Vec<RosToken>| call_requires(self.map, (t,))
    }

    /// The schema decoder.
    pub closed spec fn parser(&self) -> SchemaParser {
        self.parser
    }

    /// The mapping of decoded tokens.
    pub closed spec fn map(&self) -> M {
        self.map
    }

    /// A typed decoder for `schema`; refused as `SchemaParser::from_schema`
    /// refuses.
    pub fn from_schema(schema: &Schema, map: M) -> (r: Result<Self>)
        requires
            forall|t: Vec<RosToken>| call_requires(map, (t,)),
        ensures
            r is Ok <==> (schema.encoding@ == "ros1msg"@ && valid_utf8(schema.data@)
                && spec_definitions(decode_utf8(schema.data@), schema.name@) is Some),
            r matches Ok(p) ==> p.map() == map,
            r matches Err(e) ==> e is InvalidRecord,
    {
        match SchemaParser::from_schema(schema) {
            Ok(parser) => Ok(SchemaTypedParser { parser, map }),
            Err(e) => Err(e),
        }
    }

    /// A typed decoder for `schema` when `predicate` accepts it.
    pub fn from_schema_where<P: Fn(&Schema) -> bool>(schema: &Schema, predicate: P, map: M) -> (r: Result<Self>)
        requires
            call_requires(predicate, (schema,)),
            forall|t: Vec<RosToken>| call_requires(map, (t,)),
        ensures
            r is Ok ==> call_ensures(predicate, (schema,), true) && schema.encoding@ == "ros1msg"@
                && valid_utf8(schema.data@) && spec_definitions(decode_utf8(schema.data@), schema.name@) is Some,
            r matches Ok(p) ==> p.map() == map,
            r matches Err(e) ==> e is InvalidRecord,
            r is Err ==> call_ensures(predicate, (schema,), false) || !(schema.encoding@ == "ros1msg"@
                && valid_utf8(schema.data@) && spec_definitions(decode_utf8(schema.data@), schema.name@) is Some),
    {
        if !predicate(schema) {
            return Err(Error::InvalidRecord("Schema predicate rejected schema".to_owned()));
        }
        Self::from_schema(schema, map)
    }

    /// Decode `data` and map the tokens; a decoding failure is returned
    /// as is.
    pub fn parse(&self, data: &[u8]) -> (r: Result<T>)
        ensures
            spec_schema_decode(self.parser(), data@) is None ==> r is Err,
            spec_schema_decode(self.parser(), data@) matches Some((tv, p)) ==> exists|t: Vec<RosToken>|
                tokens_view(t@) == tv && call_ensures(self.map(), (t,), r),
    {
        proof { use_type_invariant(self); }
        match self.parser.parse_json(data) {
            Ok(tokens) => (self.map)(tokens),
            Err(e) => Err(e),
        }
    }
}

} // verus!
