use vstd::prelude::*;

verus! {

// The library's own model of a descriptor pool: the services, methods,
// message types and fields that name resolution, tree building and method
// description read, held as plain values. Each exec type has a ghost model
// (its view) over which every contract speaks.

#[derive(Clone, Debug, PartialEq, Eq)]
pub enum FieldCardinality {
    Optional,
    Required,
    Repeated,
}

#[derive(Clone, Debug)]
pub enum FieldKind {
    /// A scalar field, holding the lowercase name of its scalar kind.
    Scalar(String),
    /// A nested message field, holding the referenced type's fully-qualified name.
    Message(String),
    /// An enum field, holding the referenced type's fully-qualified name.
    Enum(String),
}

#[derive(Clone, Debug)]
pub struct FieldInfo {
    pub name: String,
    pub json_name: String,
    pub cardinality: FieldCardinality,
    pub kind: FieldKind,
}

#[derive(Clone, Debug)]
pub struct MessageInfo {
    pub full_name: String,
    pub fields: Vec<FieldInfo>,
}

#[derive(Clone, Debug)]
pub struct MethodInfo {
    pub name: String,
    pub service_full_name: String,
    pub input_type: String,
    pub output_type: String,
    pub client_streaming: bool,
    pub server_streaming: bool,
}

#[derive(Clone, Debug)]
pub struct ServiceInfo {
    pub name: String,
    pub full_name: String,
    pub methods: Vec<MethodInfo>,
}

/// An immutable index of every service and message type the descriptor set
/// declares; built once, then only read.
#[derive(Clone, Debug)]
pub struct Pool {
    pub services: Vec<ServiceInfo>,
    pub messages: Vec<MessageInfo>,
}

pub ghost enum FieldKindModel {
    Scalar(Seq<char>),
    Message(Seq<char>),
    Enum(Seq<char>),
}

pub ghost struct FieldModel {
    pub name: Seq<char>,
    pub json_name: Seq<char>,
    pub cardinality: FieldCardinality,
    pub kind: FieldKindModel,
}

pub ghost struct MessageModel {
    pub full_name: Seq<char>,
    pub fields: Seq<FieldModel>,
}

pub ghost struct MethodModel {
    pub name: Seq<char>,
    pub service_full_name: Seq<char>,
    pub input_type: Seq<char>,
    pub output_type: Seq<char>,
    pub client_streaming: bool,
    pub server_streaming: bool,
}

pub ghost struct ServiceModel {
    pub name: Seq<char>,
    pub full_name: Seq<char>,
    pub methods: Seq<MethodModel>,
}

pub ghost struct PoolModel {
    pub services: Seq<ServiceModel>,
    pub messages: Seq<MessageModel>,
}

impl View for FieldKind {
    type V = FieldKindModel;

    open spec fn view(&self) -> FieldKindModel {
        match self {
            FieldKind::Scalar(s) => FieldKindModel::Scalar(s@),
            FieldKind::Message(s) => FieldKindModel::Message(s@),
            FieldKind::Enum(s) => FieldKindModel::Enum(s@),
        }
    }
}

impl View for FieldInfo {
    type V = FieldModel;

    open spec fn view(&self) -> FieldModel {
        FieldModel {
            name: self.name@,
            json_name: self.json_name@,
            cardinality: self.cardinality,
            kind: self.kind@,
        }
    }
}

impl View for MessageInfo {
    type V = MessageModel;

    open spec fn view(&self) -> MessageModel {
        MessageModel {
            full_name: self.full_name@,
            fields: self.fields@.map_values(|f: FieldInfo| f@),
        }
    }
}

impl View for MethodInfo {
    type V = MethodModel;

    open spec fn view(&self) -> MethodModel {
        MethodModel {
            name: self.name@,
            service_full_name: self.service_full_name@,
            input_type: self.input_type@,
            output_type: self.output_type@,
            client_streaming: self.client_streaming,
            server_streaming: self.server_streaming,
        }
    }
}

impl View for ServiceInfo {
    type V = ServiceModel;

    open spec fn view(&self) -> ServiceModel {
        ServiceModel {
            name: self.name@,
            full_name: self.full_name@,
            methods: self.methods@.map_values(|m: MethodInfo| m@),
        }
    }
}

impl View for Pool {
    type V = PoolModel;

    open spec fn view(&self) -> PoolModel {
        PoolModel {
            services: self.services@.map_values(|s: ServiceInfo| s@),
            messages: self.messages@.map_values(|m: MessageInfo| m@),
        }
    }
}

impl MethodInfo {
    /// An explicit copy whose model equals this method's model.
    pub fn duplicate(&self) -> (r: MethodInfo)
        ensures
            r@ == self@,
    {
        MethodInfo {
            name: self.name.clone(),
            service_full_name: self.service_full_name.clone(),
            input_type: self.input_type.clone(),
            output_type: self.output_type.clone(),
            client_streaming: self.client_streaming,
            server_streaming: self.server_streaming,
        }
    }
}

impl ServiceModel {
    /// Every method of a service carries that service's fully-qualified name.
    pub open spec fn wf(self) -> bool {
        forall|i: int|
            0 <= i < self.methods.len() ==> (#[trigger] self.methods[i]).service_full_name
                == self.full_name
    }
}

impl PoolModel {
    pub open spec fn wf(self) -> bool {
        forall|i: int| 0 <= i < self.services.len() ==> (#[trigger] self.services[i]).wf()
    }

    /// Some message of the pool carries this fully-qualified name.
    pub open spec fn declares_message(self, name: Seq<char>) -> bool {
        exists|k: int| 0 <= k < self.messages.len() && (#[trigger] self.messages[k]).full_name
            == name
    }

    /// Every method's input and output type reference resolves among the
    /// pool's own message types.
    pub open spec fn types_resolve(self) -> bool {
        forall|i: int, j: int|
            0 <= i < self.services.len() && 0 <= j < (#[trigger] self.services[i]).methods.len()
                ==> self.declares_message(
                (#[trigger] self.services[i].methods[j]).input_type,
            ) && self.declares_message(self.services[i].methods[j].output_type)
    }
}

} // verus!
